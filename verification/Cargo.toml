[package]
name = "vhost_router"
version = "0.1.0"
edition = "2021"
publish = false

[dependencies]
async-trait = "0.1"
http = "1"
log = "0.4"
serde = { version = "1", features = ["derive"] }
serde_yaml = "0.9"
