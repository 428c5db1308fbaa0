[package]
name = "rs_simple_blockchain"
version = "0.1.0"
edition = "2021"
publish = false

[dependencies]
anyhow = "1"
bincode = "1"
bs58 = "*"
expanduser = "*"
libsqlite3-sys = "*"
openssl = "0.10"
rusqlite = "*"
serde = { version = "1", features = ["derive"] }
thiserror = "1"
