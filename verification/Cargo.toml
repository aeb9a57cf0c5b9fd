[package]
name = "susi"
version = "0.1.0"
edition = "2021"
publish = false

[dependencies]
regex = "=1.13.1"
scraper = "=0.29.0"
serde_json = "=1.0.154"
anyhow = "=1.0.104"
futures = "=0.3.34"
dotenvy = "=0.15.7"
ngrammatic = "=0.7.0"
tokio = { version = "=1.54.1", features = ["macros", "rt-multi-thread"] }
reqwest = { version = "=0.12.28", default-features = false, features = ["cookies", "rustls-tls"] }
