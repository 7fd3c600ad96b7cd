[package]
name = "claude_o_meter"
version = "0.1.0"
edition = "2021"
publish = false

[dependencies]
anyhow = "=1.0.104"
chrono = { version = "=0.4.45", features = ["serde"] }
directories = "=6.0.0"
mac-notification-sys = "=0.6.15"
objc2 = "=0.6.5"
objc2-app-kit = "=0.3.2"
objc2-foundation = "=0.3.2"
reqwest = { version = "=0.12.28", default-features = false, features = ["rustls-tls"] }
security-framework = "=3.7.0"
serde = { version = "=1.0.229", features = ["derive"] }
serde_json = "=1.0.154"
smappservice-rs = "=0.1.3"
tao = "=0.37.2"
tokio = { version = "=1.54.1", features = ["macros", "rt-multi-thread", "sync", "time"] }
tracing = "=0.1.44"
tracing-subscriber = { version = "=0.3.23", features = ["env-filter"] }
tray-icon = "=0.26.1"
