[package]
name = "mycoinlib"
version = "0.1.0"
edition = "2021"
publish = false

[dependencies]
crypto-hash = "0.3"
rustyline = "*"
serde = { version = "1", features = ["derive"] }
serde_json = "1"
