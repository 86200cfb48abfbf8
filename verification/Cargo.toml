[package]
name = "rtcore"
version = "0.1.0"
edition = "2021"
publish = false

[dependencies]
rand = "*"
clap = { version = "*", features = ["derive"] }
serde = { version = "*", features = ["derive"] }
serde_json = "*"
ply-rs = "*"
thiserror = "*"
csv = "*"
indicatif = "*"
