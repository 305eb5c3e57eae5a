[package]
name = "bytepiece"
version = "0.1.0"
edition = "2021"
publish = false

[dependencies]
aho-corasick = "*"
base64 = "*"
unic-normal = "*"
serde = { version = "*", features = ["derive"] }
serde_json = "*"
rand = "*"
rayon = "*"
