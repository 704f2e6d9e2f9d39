[package]
name = "raidhub_companion"
version = "0.1.0"
edition = "2021"
publish = false

[dependencies]
chrono = "=0.4.45"
serde = { version = "=1.0.229", features = ["derive"] }
serde_json = "=1.0.154"
reqwest = { version = "=0.12.28", default-features = false, features = ["json", "rustls-tls"] }
tokio = { version = "=1.54.1", features = ["time", "rt", "macros"] }
notify = "=8.2.1"
notify-debouncer-mini = "=0.7.0"
winreg = "*"
