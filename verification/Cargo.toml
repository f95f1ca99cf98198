[package]
name = "sawt"
version = "0.1.0"
edition = "2021"
publish = false

[dependencies]
usearch = "*"
serde = { version = "*", features = ["derive"] }
serde_json = "*"
reqwest = { version = "*", default-features = false, features = ["blocking", "json"] }
clap = { version = "*", features = ["derive"] }
comfy-table = "*"
csv = "*"
hound = "*"
whisper-rs = "*"
thiserror = "*"
