[package]
name = "ipld_dag"
version = "0.1.0"
edition = "2021"
publish = false

[dependencies]
byteorder = "=1.5.0"
cid = "=0.11.3"
failure = "=0.1.8"

[dev-dependencies]
multihash-codetable = { version = "*", default-features = false, features = ["blake2b"] }
