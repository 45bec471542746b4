[package]
name = "bunni"
version = "0.1.0"
edition = "2021"
publish = false

[dependencies]
scraper = "*"
base64 = "*"
reqwest = { version = "*", default-features = false }
async-trait = "*"
futures = "*"
serde = { version = "*", features = ["derive"] }
serde_json = "*"
