[package]
name = "diskray"
version = "0.1.0"
edition = "2021"
publish = false

[dependencies]
anyhow = "*"
chrono = "*"
humansize = "*"
parking_lot = "*"
serde = { version = "*", features = ["derive"] }
walkdir = "*"
