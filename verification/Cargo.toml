[package]
name = "segmentation_ga"
version = "0.1.0"
edition = "2021"
publish = false

[dependencies]
rand = "0.8"
queues = "1"
image = "*"
imageproc = "*"
serde = { version = "*", features = ["derive"] }
serde_json = "*"
