[package]
name = "lawh"
version = "0.1.0"
edition = "2021"
publish = false

[dependencies]
mail-parser = "=0.11.9"
linkify = "=0.11.0"
lettre = { version = "=0.11.23", default-features = false, features = ["builder"] }
rand = "=0.8.8"
uuid = { version = "=1.29.0", features = ["v4"] }
clap = { version = "=4.6.7", features = ["derive"] }
anyhow = "=1.0.104"
env_logger = "=0.11.11"
log = "=0.4.35"
