[package]
name = "cch23"
version = "0.1.0"
edition = "2021"
publish = false

[dependencies]
regex = "1"
base64 = "0.21"
chrono = "0.4"
uuid = "1"
ulid-generator-rs = "*"
unic-emoji-char = "0.9"
ring = "0.17"
data-encoding = "2"
serde = { version = "1", features = ["derive"] }
serde_json = "1"
actix-web = "4"
actix-files = "0.6"
actix-multipart = "0.6"
tokio = { version = "1", features = ["sync", "time", "fs", "io-util"] }
tracing = "0.1"
anyhow = "1"
futures-util = "0.3"
async-tempfile = "*"
tar = "0.4"
image = "0.24"
reqwest = { version = "0.11", features = ["json"] }
rustemon = "*"
s2 = "*"
dms-coordinates = "*"
