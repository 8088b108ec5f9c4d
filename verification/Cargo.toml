[package]
name = "tag_npmi"
version = "0.1.0"
edition = "2021"
publish = false

[dependencies]
rustc-hash = "2"
itertools = "0.14"
serde = { version = "1", features = ["derive"] }
bincode = { version = "2", features = ["serde"] }
csv = "1"
rand = "0.9"
