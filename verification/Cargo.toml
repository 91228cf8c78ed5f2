[package]
name = "dr9k"
version = "0.1.0"
edition = "2021"
publish = false

[dependencies]
linkify = "*"
tokio = { version = "*", features = ["full"] }
twilight-gateway = "*"
twilight-http = "*"
twilight-interactions = "*"
twilight-model = "*"
twilight-util = { version = "*", features = ["builder"] }
bson = { version = "*", features = ["serde"] }
chrono = "*"
serde = { version = "*", features = ["derive"] }
toml = "*"
log = "*"
simple_logger = "*"
