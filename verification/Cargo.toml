[package]
name = "inflyte_monitor"
version = "0.1.0"
edition = "2021"
publish = false

[dependencies]
scraper = "*"
ego-tree = "*"
anyhow = "*"
clap = { version = "*", features = ["derive"] }
dotenv = "*"
reqwest = { version = "*", default-features = false, features = ["rustls-tls", "multipart"] }
tokio = { version = "*", features = ["macros", "rt-multi-thread", "time"] }
azure_storage = "*"
azure_storage_blobs = "*"
