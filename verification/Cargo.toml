[package]
name = "allosaurus"
version = "0.1.0"
edition = "2021"
publish = false

[dependencies]
arrayref = "0.3"
blsful = "2.5"
ffi-support = "0.4"
lazy_static = "1"
merlin = "3"
postcard = { version = "1", features = ["use-std"] }
rand_core = { version = "0.6", features = ["getrandom"] }
serde = { version = "1", features = ["derive"] }
sha2 = "0.10"
