[package]
name = "shapeshifter"
version = "0.1.0"
edition = "2021"
publish = false

[dependencies]
rand = "=0.10.3"
regex = "1"
serde = { version = "=1.0.229", features = ["derive"] }
serde_json = "=1.0.154"
