[package]
name = "i3_autolayout"
version = "0.1.0"
edition = "2021"
publish = false

[dependencies]
anyhow = "*"
clap = { version = "*", features = ["derive"] }
i3_ipc = "*"
ptree = "*"

[dev-dependencies]
serde_json = "*"
