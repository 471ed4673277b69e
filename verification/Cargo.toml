[package]
name = "p2p-distribute"
version = "0.1.0"
edition = "2021"
publish = false

[dependencies]
getrandom = { version = "0.2", features = ["std"] }
sha1 = "0.10"
sha2 = "0.10"
thiserror = "2"
