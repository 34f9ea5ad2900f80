//! Numbers as byte strings.
use vstd::prelude::*;
use vstd::slice::slice_subrange;

verus! {

/// `256^n`.
pub open spec fn pow256(n: nat) -> nat
    decreases n,
{
    if n == 0 {
        1
    } else {
        256 * pow256((n - 1) as nat)
    }
}

/// The number that a byte string stands for, most significant byte first.
pub open spec fn be_value(b: Seq<u8>) -> nat
    decreases b.len(),
{
    if b.len() == 0 {
        0
    } else {
        be_value(b.drop_last()) * 256 + b.last() as nat
    }
}

/// The number that a byte string stands for, least significant byte first.
pub open spec fn le_value(b: Seq<u8>) -> nat
    decreases b.len(),
{
    if b.len() == 0 {
        0
    } else {
        b.first() as nat + 256 * le_value(b.drop_first())
    }
}

/// The `n` low-order base-256 digits of `v`, most significant first.
pub open spec fn be_bytes(v: nat, n: nat) -> Seq<u8>
    decreases n,
{
    if n == 0 {
        Seq::empty()
    } else {
        be_bytes(v / 256, (n - 1) as nat).push((v % 256) as u8)
    }
}

/// A number written in `n` digits has `n` bytes.
pub proof fn lemma_be_bytes_len(v: nat, n: nat)
    ensures
        be_bytes(v, n).len() == n,
    decreases n,
{
    if n > 0 {
        lemma_be_bytes_len(v / 256, (n - 1) as nat);
    }
}

/// A byte string stands for a number below 256 to its length.
pub proof fn lemma_be_value_bound(b: Seq<u8>)
    ensures
        be_value(b) < pow256(b.len()),
    decreases b.len(),
{
    if b.len() > 0 {
        lemma_be_value_bound(b.drop_last());
    }
}

/// Reading back the digits of a number that fits gives the number.
pub proof fn lemma_be_value_of_bytes(v: nat, n: nat)
    requires
        v < pow256(n),
    ensures
        be_value(be_bytes(v, n)) == v,
    decreases n,
{
    if n > 0 {
        let m = (n - 1) as nat;
        lemma_be_value_of_bytes(v / 256, m);
        assert(be_bytes(v, n).drop_last() =~= be_bytes(v / 256, m));
    }
}

/// Writing out the number that `b` stands for gives `b` again.
pub proof fn lemma_be_bytes_of_value(b: Seq<u8>)
    ensures
        be_bytes(be_value(b), b.len()) == b,
    decreases b.len(),
{
    if b.len() > 0 {
        lemma_be_bytes_of_value(b.drop_last());
        let v = be_value(b);
        assert(v / 256 == be_value(b.drop_last()));
        assert(v % 256 == b.last() as nat);
        assert(be_bytes(v, b.len()) =~= b);
    } else {
        assert(be_bytes(be_value(b), b.len()) =~= b);
    }
}

/// `256^32` is `2^256`.
pub proof fn lemma_pow256_32()
    ensures
        pow256(32) == 0x1_0000000000000000_0000000000000000_0000000000000000_0000000000000000nat,
{
    reveal_with_fuel(pow256, 9);
    assert(pow256(8) == 0x1_0000000000000000nat);
    assert(pow256(16) == 0x1_0000000000000000_0000000000000000nat);
    assert(pow256(24) == 0x1_0000000000000000_0000000000000000_0000000000000000nat);
}

/// Appends all of `src` to `out`.
pub fn append_bytes(out: &mut Vec<u8>, src: &Vec<u8>)
    ensures
        final(out)@ == old(out)@ + src@,
{
    let mut i: usize = 0;
    while i < src.len()
        invariant
            i <= src.len(),
            out@ == old(out)@ + src@.subrange(0, i as int),
        decreases src.len() - i,
    {
        out.push(src[i]);
        i += 1;
        assert(old(out)@ + src@.subrange(0, i as int) =~= (old(out)@ + src@.subrange(
            0,
            i - 1,
        )).push(src@[i - 1]));
    }
    assert(src@.subrange(0, src.len() as int) =~= src@);
}

/// Two byte strings packed into one: the length of each in four bytes, most
/// significant first, and then the two strings themselves.
pub open spec fn pair_encoding(a: Seq<u8>, b: Seq<u8>) -> Seq<u8> {
    be_bytes(a.len(), 4) + be_bytes(b.len(), 4) + a + b
}

/// The two byte strings that one byte string unpacks to, if it is two
/// lengths followed by exactly as many bytes as they announce.
pub open spec fn pair_decoding(bytes: Seq<u8>) -> Option<(Seq<u8>, Seq<u8>)> {
    if bytes.len() < 8 {
        None
    } else {
        let first = be_value(bytes.subrange(0, 4)) as int;
        let second = be_value(bytes.subrange(4, 8)) as int;
        if bytes.len() == 8 + first + second {
            Some((bytes.subrange(8, 8 + first), bytes.subrange(8 + first, 8 + first + second)))
        } else {
            None
        }
    }
}

/// Appends a length as four bytes, most significant first.
fn append_length(out: &mut Vec<u8>, length: usize)
    requires
        length <= u32::MAX,
    ensures
        final(out)@ == old(out)@ + be_bytes(length as nat, 4),
{
    let b0 = (length / 0x100_0000) as u8;
    let b1 = ((length / 0x1_0000) % 256) as u8;
    let b2 = ((length / 0x100) % 256) as u8;
    let b3 = (length % 256) as u8;
    out.push(b0);
    out.push(b1);
    out.push(b2);
    out.push(b3);
    proof {
        reveal_with_fuel(be_bytes, 5);
        assert(be_bytes(length as nat, 4) =~= seq![b0, b1, b2, b3]);
        assert(out@ =~= old(out)@ + seq![b0, b1, b2, b3]);
    }
}

/// Reads a length from four bytes, most significant first.
fn read_length(bytes: &[u8], start: usize) -> (r: usize)
    requires
        start + 4 <= bytes.len(),
    ensures
        r == be_value(bytes@.subrange(start as int, start + 4)),
        r <= u32::MAX,
{
    let b0 = bytes[start] as u64;
    let b1 = bytes[start + 1] as u64;
    let b2 = bytes[start + 2] as u64;
    let b3 = bytes[start + 3] as u64;
    proof {
        let s = bytes@.subrange(start as int, start + 4);
        reveal_with_fuel(be_value, 5);
        assert(s.drop_last().drop_last().drop_last().drop_last().len() == 0);
        assert(s.last() == bytes@[start + 3]);
        assert(s.drop_last().last() == bytes@[start + 2]);
        assert(s.drop_last().drop_last().last() == bytes@[start + 1]);
        assert(s.drop_last().drop_last().drop_last().last() == bytes@[start as int]);
    }
    let value: u64 = ((b0 * 256 + b1) * 256 + b2) * 256 + b3;
    value as usize
}

/// Packs two byte strings into one. A string of 2^32 bytes or more cannot
/// be packed.
pub fn pack_pair(a: &[u8], b: &[u8]) -> (r: Option<Vec<u8>>)
    ensures
        r is Some <==> a@.len() <= u32::MAX && b@.len() <= u32::MAX,
        r matches Some(bytes) ==> bytes@ == pair_encoding(a@, b@),
{
    if a.len() > 0xFFFF_FFFF || b.len() > 0xFFFF_FFFF {
        return None;
    }
    let mut out: Vec<u8> = Vec::new();
    append_length(&mut out, a.len());
    append_length(&mut out, b.len());
    let first = vstd::slice::slice_to_vec(a);
    let second = vstd::slice::slice_to_vec(b);
    append_bytes(&mut out, &first);
    append_bytes(&mut out, &second);
    assert(out@ =~= pair_encoding(a@, b@));
    Some(out)
}

/// Unpacks one byte string into the two that were packed into it. Bytes
/// that are not two lengths followed by exactly as many bytes as they
/// announce unpack to nothing.
pub fn unpack_pair(bytes: &[u8]) -> (r: Option<(Vec<u8>, Vec<u8>)>)
    ensures
        match r {
            Some((a, b)) => pair_decoding(bytes@) == Some((a@, b@)),
            None => pair_decoding(bytes@) is None,
        },
{
    if bytes.len() < 8 {
        return None;
    }
    let first = read_length(bytes, 0);
    let second = read_length(bytes, 4);
    let rest = bytes.len() - 8;
    if first > rest || rest - first != second {
        return None;
    }
    let a = vstd::slice::slice_to_vec(slice_subrange(bytes, 8, 8 + first));
    let b = vstd::slice::slice_to_vec(slice_subrange(bytes, 8 + first, 8 + first + second));
    Some((a, b))
}

/// Two byte strings survive packing and unpacking unchanged.
pub proof fn lemma_pair_roundtrip(a: Seq<u8>, b: Seq<u8>)
    requires
        a.len() <= u32::MAX,
        b.len() <= u32::MAX,
    ensures
        pair_decoding(pair_encoding(a, b)) == Some((a, b)),
{
    let bytes = pair_encoding(a, b);
    lemma_be_bytes_len(a.len(), 4);
    lemma_be_bytes_len(b.len(), 4);
    assert(pow256(4) == 0x1_0000_0000) by {
        reveal_with_fuel(pow256, 5);
    }
    lemma_be_value_of_bytes(a.len(), 4);
    lemma_be_value_of_bytes(b.len(), 4);
    assert(bytes.subrange(0, 4) =~= be_bytes(a.len(), 4));
    assert(bytes.subrange(4, 8) =~= be_bytes(b.len(), 4));
    let first = a.len() as int;
    let second = b.len() as int;
    assert(bytes.subrange(8, 8 + first) =~= a);
    assert(bytes.subrange(8 + first, 8 + first + second) =~= b);
}

} // verus!
