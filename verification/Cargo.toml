[package]
name = "grok_dispatch"
version = "0.1.0"
edition = "2021"
publish = false

[dependencies]
dotenv = "=0.15.0"
grammers-client = "=0.10.0"
grammers-session = { version = "=0.10.0", default-features = false }
log = "=0.4.34"
serde = { version = "=1.0.229", features = ["derive"] }
thiserror = "=2.0.21"
tokio = { version = "=1.53.2", features = ["rt-multi-thread", "macros", "sync", "time", "signal"] }
