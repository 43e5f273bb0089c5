[package]
name = "robot_master"
version = "0.1.0"
edition = "2021"
publish = false

[dependencies]
rand = "=0.10.3"
clap = { version = "=4.6.7", features = ["derive"] }
serde = { version = "=1.0.229", features = ["derive"] }
serde_json = "=1.0.154"
regex = "=1.13.1"
rayon = "=1.12.0"
fuzzy-matcher = "0.3"
