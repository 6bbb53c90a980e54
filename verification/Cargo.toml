[package]
name = "faasrail"
version = "0.1.0"
edition = "2021"
publish = false

[dependencies]
aes = "0.8"
ctr = "0.9"
getrandom = "0.2"
rand = "0.7"
flate2 = "1"
serde = { version = "1", features = ["derive"] }
serde_json = "1"
base64 = "0.22"
clap = { version = "4", features = ["derive"] }
csv = "1"
reqwest = { version = "0.12", default-features = false, features = ["json", "rustls-tls"] }
tokio = { version = "1", features = ["full"] }
tokio-stream = { version = "0.1", features = ["signal"] }
futures = "0.3"
anyhow = "1"
argh = "0.1"
thiserror = "2"
tracing = "0.1"
tracing-subscriber = { version = "0.3", features = ["env-filter"] }
wasi = "0.14"
