[package]
name = "nextcloud"
version = "0.1.0"
edition = "2021"
publish = false

[dependencies]
quick-xml = "=0.30.0"
reqwest = { version = "=0.13.5", default-features = false }
url = "=2.5.8"
