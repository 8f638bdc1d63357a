[package]
name = "jeton"
version = "0.1.0"
edition = "2021"
publish = false

[dependencies]
aho-corasick = "1"
regex = "1"
rayon = "1"
rayon-cond = "0.3"
serde = { version = "1", features = ["derive"] }
serde_json = "1"
