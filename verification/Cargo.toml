[package]
name = "fan_control"
version = "0.1.0"
edition = "2021"
publish = false

[dependencies]
lexical-sort = "=0.3.1"
rand = "=0.8.8"
serde = { version = "=1.0.229", features = ["derive"] }
toml = "=0.8.23"
clap = { version = "=4.6.7", features = ["derive"] }
log = "=0.4.35"
env_logger = "=0.11.11"
directories = "=5.0.1"
