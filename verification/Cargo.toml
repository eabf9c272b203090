[package]
name = "kube_requests"
version = "0.1.0"
edition = "2021"
publish = false

[dependencies]
rayon = "1"
clap = "2"
chrono = "0.4"
env_logger = "0.10"
log = "0.4"
itertools = "0.12"
pad = "0.1"
term_size = "0.3"
reqwest = { version = "0.11", default-features = false, features = ["blocking", "json", "rustls-tls"] }
serde = { version = "1", features = ["derive"] }
serde_json = "1"
