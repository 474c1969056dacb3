[package]
name = "containtment_check"
version = "0.1.0"
edition = "2021"
publish = false

[dependencies]
strsim = "*"
anyhow = "*"
colored = "*"
regex = "*"
scraper = "*"
clap = { version = "*", features = ["derive"] }
reqwest = { version = "*", default-features = false, features = ["blocking", "rustls-tls"] }
tracing = "*"
tracing-subscriber = "*"
