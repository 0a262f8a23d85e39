[package]
name = "lsr"
version = "0.1.0"
edition = "2021"
publish = false

[dependencies]
ansi_term = "*"
anyhow = "*"
chrono = "*"
clap = { version = "*", features = ["derive"] }
users = "*"
