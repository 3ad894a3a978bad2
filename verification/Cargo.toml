[package]
name = "seed_intelligence"
version = "0.1.0"
edition = "2021"
publish = false

[dependencies]
jieba-rs = "0.7"
stop-words = "0.8"
sha2 = "0.10"
serde = { version = "1", features = ["derive"] }
serde_json = "1"
clap = { version = "4", features = ["derive"] }
tokio = { version = "1", features = ["rt-multi-thread", "macros"] }
reqwest = { version = "0.12", default-features = false, features = ["json", "rustls-tls"] }
candle-core = "0.8"
candle-nn = "0.8"
directories = "5"
chrono = "0.4"
env_logger = "0.11"
notify = "6"
arboard = { version = "3", default-features = false }
epub = "2"
