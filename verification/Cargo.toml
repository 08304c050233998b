[package]
name = "log_event"
version = "0.1.0"
edition = "2021"
publish = false

[dependencies]
async-trait = "0.1"
inventory = "*"
serde = { version = "1", features = ["derive"] }
serde_json = "1"
typetag = "*"
