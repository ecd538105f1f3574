[package]
name = "pianobar_webserver"
version = "0.1.0"
edition = "2021"
publish = false

[dependencies]
anyhow = "1"
const_format = "0.2"
env_logger = "0.8"
futures = "0.3"
jsonrpc-core = "18"
log = "0.4"
rust-ini = "0.17"
serde = { version = "1", features = ["derive"] }
serde_json = "1"
shellexpand = "2"
structopt = "0.3"
tokio = { version = "1", features = ["full"] }
warp = "0.3"

[dev-dependencies]
regex = "1"
