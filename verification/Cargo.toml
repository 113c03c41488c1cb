[package]
name = "linkage"
version = "0.1.0"
edition = "2021"
publish = false

[dependencies]
rand = "0.8"
time = "0.3"
serde = { version = "1", features = ["derive"] }
serde_json = "1"
dirs-next = "2"
