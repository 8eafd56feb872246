[package]
name = "txtstat"
version = "0.1.0"
edition = "2021"
publish = false

[dependencies]
anyhow = "1"
clap = { version = "4", features = ["derive"] }
rustc-hash = "2"
unicode-segmentation = "1"
serde_json = "1"
