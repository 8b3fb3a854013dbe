[package]
name = "qad"
version = "0.1.0"
edition = "2021"
publish = false

[dependencies]
regex = "1"
indexmap = "2"
serde = { version = "1", features = ["derive"] }
serde_yaml = "0.9"
toml = "0.8"
anyhow = "1"
atty = "0.2"
crossterm = "0.25"
tui = "0.19"
argh = "0.1"
