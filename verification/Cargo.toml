[package]
name = "wikigraph"
version = "0.1.0"
edition = "2021"
publish = false

[dependencies]
anyhow = "*"
crossbeam = "*"
futures = "*"
rand = "*"
regex = "*"
reqwest = { version = "*", default-features = false }
scraper = "*"
tokio = { version = "*", features = ["full"] }
url = "*"
