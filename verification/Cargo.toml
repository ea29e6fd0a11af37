[package]
name = "mlatd"
version = "0.4.0"
edition = "2021"
publish = false

[dependencies]
anyhow = "1"
clap = { version = "4", features = ["derive"] }
hex = "0.4"
serde_json = "1"
tokio = { version = "1", features = ["full"] }
