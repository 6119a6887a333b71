[package]
name = "first_rust"
version = "0.1.0"
edition = "2021"
publish = false

[dependencies]
serde_json = "1"
scraper = "0.17"
headless_chrome = "1"
dotenv = "0.15"
reqwest = { version = "0.11", default-features = false, features = ["blocking", "rustls-tls"] }
ethers-solc = { version = "2", default-features = false }
