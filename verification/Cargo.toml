[package]
name = "gn_rules"
version = "0.1.0"
edition = "2021"
publish = false

[dependencies]
serde = { version = "*", features = ["derive"] }
serde_json = "*"
cargo-platform = "*"
hex = "*"
aho-corasick = "*"
