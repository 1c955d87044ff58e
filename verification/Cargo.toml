[package]
name = "jofi"
version = "0.1.0"
edition = "2021"
publish = false

[dependencies]
anyhow = "1"
clap = { version = "4", features = ["derive"] }
fontdue = "0.9"
serde = { version = "1", features = ["derive"] }
serde_json = "1"
shell-words = "1"
smithay-client-toolkit = "0.20"
unicode-normalization = "0.1"
wayland-client = "0.31"
