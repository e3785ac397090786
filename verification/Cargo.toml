[package]
name = "xks"
version = "0.1.0"
edition = "2021"
publish = false

[dependencies]
clap = { version = "=4.6.7", features = ["derive", "env"] }
serde = { version = "=1.0.229", features = ["derive"] }
serde_json = "=1.0.154"
ureq = { version = "=2.12.1", default-features = false, features = ["json"] }

[dev-dependencies]
tiny_http = "=0.12.0"
