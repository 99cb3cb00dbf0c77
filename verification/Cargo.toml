[package]
name = "vector_store"
version = "0.1.0"
edition = "2021"
publish = false

[dependencies]
lmdb = "0.8"
rkyv = "0.7"
rustc-hash = "2"
serde = { version = "1", features = ["derive"] }
serde_cbor = "0.11"
siphasher = "1"
