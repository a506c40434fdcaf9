[package]
name = "apt_mirror_sync"
version = "0.1.0"
edition = "2021"
publish = false

[dependencies]
anyhow = "1"
axum = "0.7"
chrono = { version = "0.4", default-features = false, features = ["clock"] }
flate2 = "1"
log = "0.4"
reqwest = { version = "0.12", default-features = false }
sequoia-openpgp = { version = "1", default-features = false, features = ["crypto-rust", "allow-experimental-crypto", "allow-variable-time-crypto"] }
serde = { version = "1", features = ["derive"] }
serde_json = "1"
tokio = { version = "1", features = ["full"] }
url = "2"
walkdir = "2"
xz2 = { version = "0.1", features = ["static"] }
