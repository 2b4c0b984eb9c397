[package]
name = "crossword_bot"
version = "0.1.0"
edition = "2021"
publish = false

[dependencies]
rand = "0.9"
rand_chacha = "0.9"
prost = "0.13"
tokio = { version = "1", default-features = false, features = ["rt-multi-thread", "macros", "time"] }
async-nats = "0.38"
futures-util = "0.3"
reqwest = { version = "0.12", default-features = false, features = ["blocking"] }
log = "0.4"
env_logger = "0.11"
