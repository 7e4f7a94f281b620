[package]
name = "codebot"
version = "0.1.0"
edition = "2021"
publish = false

[dependencies]
ciborium = "*"
fancy-regex = "*"
indexmap = { version = "2", features = ["serde"] }
indicatif = "*"
rayon = "*"
serde = { version = "1", features = ["derive"] }
serde_json = "1"
