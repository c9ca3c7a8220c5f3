[package]
name = "pscan"
version = "2.0.0"
edition = "2021"
publish = false

[dependencies]
ipnet = "=2.12.2"
serde = { version = "=1.0.229", features = ["derive"] }
serde_json = "=1.0.154"
thiserror = "=2.0.21"
clap = { version = "=4.6.7", features = ["derive"] }
tokio = { version = "=1.54.1", features = ["full"] }
tokio-util = "=0.7.20"
futures = "=0.3.34"
surge-ping = "=0.8.4"
libc = "=0.2.191"
self_update = { version = "=1.3.3", default-features = false, features = ["ureq", "rustls", "github", "archive-tar", "compression-tar-gz"] }

[dev-dependencies]
tempfile = "=3.27.0"
