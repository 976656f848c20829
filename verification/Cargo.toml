[package]
name = "yml_feed"
version = "0.1.0"
edition = "2021"
publish = false

[dependencies]
quick-xml = "0.22"
glob = "0.3"
reqwest = { version = "0.11", default-features = false, features = ["blocking", "rustls-tls"] }
