[package]
name = "mnesphere"
version = "0.1.0"
edition = "2021"
publish = false

[dependencies]
regex = "=1.13.1"
chrono = "=0.4.45"
sha1 = "=0.10.7"
base64 = "=0.22.1"
serde = { version = "=1.0.229", features = ["derive"] }
serde_json = "=1.0.154"
serde_yaml = "=0.9.34"
dirs = "=5.0.1"
keyring = { version = "=3.6.3", features = ["windows-native", "apple-native"] }
notify = "=6.1.1"
reqwest = { version = "=0.12.28", default-features = false, features = ["json", "blocking", "rustls-tls"] }
