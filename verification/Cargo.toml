[package]
name = "ruh_time_tracker"
version = "0.1.0"
edition = "2021"
publish = false

[dependencies]
uuid = { version = "*", features = ["v4"] }
rand = "*"
serde = { version = "*", features = ["derive"] }
ron = "*"
chrono = "*"
egui = "*"
env_logger = "*"
