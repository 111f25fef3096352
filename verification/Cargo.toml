[package]
name = "pgn_parser"
version = "0.1.0"
edition = "2021"
publish = false

[dependencies]
csv = "1"
indicatif = "0.17"
serde = { version = "1", features = ["derive"] }
