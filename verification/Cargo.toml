[package]
name = "trajectory_analysis"
version = "0.1.0"
edition = "2021"
publish = false

[dependencies]
clap = { version = "=4.6.7", features = ["derive"] }
gchemol = "=0.1.7"
gchemol-gut = "=0.4.4"
gosh-dataset = "=0.2.1"
serde = { version = "1", features = ["derive"] }
spdkit = "=0.1.0"
