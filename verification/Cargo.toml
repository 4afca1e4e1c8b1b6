[package]
name = "zho_annotator"
version = "0.1.0"
edition = "2021"
publish = false

[dependencies]
anyhow = "*"
clap = "*"
serde = { version = "*", features = ["derive"] }
serde_json = "*"
