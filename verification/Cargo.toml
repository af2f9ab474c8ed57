[package]
name = "gdcli"
version = "0.1.0"
edition = "2021"
publish = false

[dependencies]
anyhow = "1"
bytes = "1"
clap = { version = "4", features = ["derive"] }
httparse = "1"
include_dir = "0.7"
percent-encoding = "2"
serde = { version = "1", features = ["derive"] }
serde_json = { version = "1", features = ["preserve_order"] }
tokio = { version = "1", features = ["full"] }
toon-format = "*"
ureq = { version = "2", default-features = false }
