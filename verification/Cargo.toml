[package]
name = "sanity"
version = "0.1.0"
edition = "2021"
publish = false

[dependencies]
json = "*"
anyhow = "*"
env_logger = "*"
execute = "*"
ignore = "*"
log = "*"
serde = { version = "*", features = ["derive"] }
serde_yaml = "*"
structopt = "*"
