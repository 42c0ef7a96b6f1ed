[package]
name = "ml_systems"
version = "0.1.0"
edition = "2021"
publish = false

[dependencies]
rand = "=0.8.8"
regex = "=1.13.1"
chrono = "=0.4.45"
clap = { version = "=4.6.7", features = ["derive"] }
ndarray = "*"
csv = "*"
thiserror = "*"
anyhow = "*"
serde = { version = "*", features = ["derive"] }
