[package]
name = "update_tracker"
version = "0.1.0"
edition = "2021"
publish = false

[dependencies]
chrono = { version = "0.4", default-features = false, features = ["std", "clock"] }
url = "2"
anyhow = "1"
clap = "2"
