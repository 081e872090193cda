[package]
name = "mail_focus"
version = "0.1.0"
edition = "2021"
publish = false

[dependencies]
base64 = "=0.22.1"
chrono = "=0.4.45"
html2text = "=0.12.6"
imap = "=2.4.1"
keyring = { version = "=3.6.3", features = ["apple-native", "windows-native"] }
lettre = "=0.11.23"
mailparse = "=0.15.0"
native-tls = "=0.2.18"
regex = "=1.13.1"
reqwest = { version = "=0.12.28", features = ["blocking", "json"] }
rusqlite = { version = "=0.31.0", features = ["bundled"] }
serde = { version = "=1.0.229", features = ["derive"] }
serde_json = "=1.0.154"
uuid = { version = "=1.29.0", features = ["v4"] }
