[package]
name = "chatgpt-linux-desktop"
version = "0.1.0"
edition = "2021"
publish = false

[dependencies]
anyhow = "1"
clap = { version = "4", features = ["derive", "env"] }
indicatif = "0.17"
serde_json = "1"
ureq = "3"
walkdir = "2"
which = "*"
zip = { version = "*", default-features = false, features = ["deflate"] }
