[package]
name = "none_shall_pass"
version = "0.1.0"
edition = "2021"
publish = false

[dependencies]
env_logger = "0.11"
glob = "0.3"
log = "0.4"
reqwest = { version = "0.12", default-features = false, features = ["blocking", "rustls-tls"] }
serde = { version = "1", features = ["derive"] }
serde_json = "1"

[dev-dependencies]
regex = "1"
