[package]
name = "blog"
version = "0.1.0"
edition = "2021"
publish = false

[dependencies]
http-body-util = "0.1"
hyper = { version = "1", features = ["full"] }
hyper-util = { version = "0.1", features = ["full"] }
reqwest = { version = "0.12", default-features = false, features = ["json", "gzip", "rustls-tls"] }
serde = { version = "1", features = ["derive"] }
socket2 = "0.5"
tokio = { version = "1", features = ["full"] }
toml = "0.8"
