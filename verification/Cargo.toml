[package]
name = "detoxrs"
version = "0.1.0"
edition = "2021"
publish = false

[dependencies]
unicode-normalization = "0.1"
unicode-segmentation = "1"
clap = { version = "4", features = ["derive"] }
rustix = { version = "1", features = ["fs"] }
serde_json = "1"
walkdir = "2"
