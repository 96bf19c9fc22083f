[package]
name = "imageshare"
version = "0.1.0"
edition = "2021"
publish = false

[dependencies]
bincode = "1.3"
serde = { version = "1.0", features = ["derive"] }
chrono = "0.4"
rand = "0.8"
rouille = "3"
