[package]
name = "cargo_new_release"
version = "0.1.0"
edition = "2021"
publish = false

[dependencies]
anyhow = "1"
base64 = "=0.23.1"
dialoguer = "=0.12.0"
serde_json = "1"
ureq = { version = "=2.12.1", features = ["json"] }
