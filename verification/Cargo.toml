[package]
name = "lantern"
version = "0.1.0"
edition = "2021"
publish = false

[dependencies]
anyhow = "*"
byte-unit = "*"
clap = "*"
dirs = "*"
nix = { version = "*", features = ["user"] }
serde = { version = "*", features = ["derive"] }
serde_json = "*"
toml = "*"
