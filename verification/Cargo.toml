[package]
name = "dnssync"
version = "0.1.0"
edition = "2021"
publish = false

[dependencies]
anyhow = "=1.0.104"
cloudflare = { version = "=0.14.0", features = ["blocking"] }
envy = "=0.4.2"
serde = { version = "=1.0.229", features = ["derive"] }
serde_yaml = "=0.9.34"
