[package]
name = "awesome_omarchy"
version = "0.1.0"
edition = "2021"
publish = false

[dependencies]
pulldown-cmark = "*"
serde = { version = "*", features = ["derive"] }
serde_json = "*"
toml = "*"
serde_yaml = "*"
