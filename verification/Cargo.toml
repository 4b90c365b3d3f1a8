[package]
name = "markov_telegram_bot"
version = "0.1.0"
edition = "2021"
publish = false

[dependencies]
rand = "0.8"
substring = "1"
serde = { version = "1", features = ["derive"] }
serde_json = "1"
clap = "2"
env_logger = "0.9"
log = "0.4"
tokio = { version = "1", features = ["macros", "rt-multi-thread"] }
mongodb = "2"
frankenstein = { version = "0.10", default-features = false, features = ["async-http-client"] }
