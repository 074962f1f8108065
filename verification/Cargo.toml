[package]
name = "reactdb"
version = "0.1.0"
edition = "2021"
publish = false

[dependencies]
bincode = "1"
bytes = "1"
failure = "0.1"
itertools = "0.10"
num = "0.4"
serde = { version = "1", features = ["derive"] }
serde_derive = "1"
