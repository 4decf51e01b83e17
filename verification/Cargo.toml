[package]
name = "roles_bot"
version = "0.1.0"
edition = "2021"
publish = false

[dependencies]
dotenvy = "=0.15.7"
emojis = "=0.9.1"
env_logger = "=0.11.11"
futures = "=0.3.34"
indexmap = "=2.14.2"
mongodb = "=3.9.1"
serde = { version = "=1.0.229", features = ["derive"] }
tokio = { version = "=1.54.1", features = ["full"] }
volty = "=0.1.0"

[dev-dependencies]
regex = "=1.13.1"
