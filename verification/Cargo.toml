[package]
name = "lottery_engine"
version = "0.1.0"
edition = "2021"
publish = false

[dependencies]
rand = "0.8"
serde = { version = "1", features = ["derive"] }
serde_json = "1"
scraper = "*"
encoding_rs = "0.8"
