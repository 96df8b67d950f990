[package]
name = "gritshield"
version = "0.1.0"
edition = "2021"
publish = false

[dependencies]
urlencoding = "=2.1.3"
html-escape = "=0.2.15"
serde = { version = "=1.0.229", features = ["derive"] }
serde_json = "=1.0.154"
tokio = { version = "=1.54.1", features = ["net", "io-util", "time", "rt", "rt-multi-thread", "macros", "sync"] }
uuid = { version = "=1.29.0", features = ["v4"] }
cron = "=0.17.0"
chrono = { version = "=0.4.45", default-features = false, features = ["clock", "std"] }
tokio-tungstenite = "*"
colored = "*"
