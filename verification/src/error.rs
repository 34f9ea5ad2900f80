//! The ways in which a request can fail.
use vstd::prelude::*;

verus! {

/// Why a request was refused. A credential that does not verify is no
/// error: that is an answer.
#[derive(Clone, Copy, Debug, PartialEq, Eq, Hash, Structural)]
pub enum Error {
    /// Bytes of the wrong length.
    Length,
    /// Bytes of the right length that are no encoding of a scalar or point.
    Encoding,
    /// The identifier is a member already.
    AlreadyMember,
    /// The identifier is not a member.
    NotMember,
    /// The identifier cannot be accumulated under this key.
    Degenerate,
    /// The epoch asked for lies beyond the authority's history.
    Epoch,
    /// Records of change that are not those of consecutive epochs in their
    /// order.
    Order,
    /// Fewer shares than a reconstruction reads: than the threshold or,
    /// for one that is checked, than one more.
    InsufficientShares,
    /// Shares whose nodes are zero or not distinct, or that do not cover the
    /// same epochs.
    Shares,
    /// The shares do not agree on one value.
    Mismatch,
    /// The holder has no witness, or the identifier was deleted.
    NoWitness,
}

} // verus!
