[package]
name = "snow_routes"
version = "0.1.0"
edition = "2021"
publish = false

[dependencies]
indexmap = "1"
priority-queue = "1"
rand = "0.8"
itertools = "0.10"
log = "0.4"
env_logger = "0.9"
clap = "2"
serde = { version = "1", features = ["derive"] }
serde_json = "1"
geo = "*"
geojson = "*"
