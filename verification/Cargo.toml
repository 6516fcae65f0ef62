[package]
name = "daybook"
version = "0.1.0"
edition = "2021"
publish = false

[dependencies]
chrono = { version = "0.4", default-features = false, features = ["std", "clock"] }
chrono-tz = "*"
tide = "0.16"
async-std = { version = "1", features = ["attributes"] }
