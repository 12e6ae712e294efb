[package]
name = "partial_json_parser_rs"
version = "0.1.0"
edition = "2021"
publish = false

[dependencies]
nom = "7"
serde = { version = "1", features = ["derive"] }
serde_json = "1"
json5 = "0.4"
regex = "1"
proptest = "1"
