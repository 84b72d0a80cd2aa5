[package]
name = "miden_mast"
version = "0.1.0"
edition = "2021"
publish = false

[dependencies]
miden-crypto = { version = "0.22", default-features = false, features = ["std"] }
thiserror = "2"
serde = { version = "1", features = ["derive"] }
