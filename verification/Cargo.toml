[package]
name = "lawharvest"
version = "0.1.0"
edition = "2021"
publish = false

[dependencies]
scraper = "=0.27.0"
reqwest = { version = "=0.13.5", default-features = false, features = ["blocking"] }
openai-api-rs = "=10.0.2"
tokio = { version = "*", features = ["rt-multi-thread"] }
