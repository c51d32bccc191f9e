[package]
name = "big_image_viewer"
version = "0.1.0"
edition = "2021"
publish = false

[dependencies]
image = "0.24"
tokio = { version = "1", features = ["full"] }
serde = { version = "1", features = ["derive"] }
serde_json = "1"
clap = { version = "4", features = ["derive"] }
log = "0.4"
env_logger = "0.10"
rayon = "1"
