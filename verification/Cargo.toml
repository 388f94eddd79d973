[package]
name = "ollama_balancer"
version = "0.1.0"
edition = "2021"
publish = false

[dependencies]
serde_json = "1"
bytes = "1"
clap = { version = "4", features = ["derive"] }
futures-util = "0.3"
hyper = { version = "0.14", features = ["full"] }
rand = "0.9"
reqwest = { version = "0.12", default-features = false, features = ["stream"] }
tokio = { version = "1", features = ["macros", "rt-multi-thread", "signal"] }
tracing = "0.1"
tracing-subscriber = { version = "0.3", features = ["time", "local-time"] }
time = { version = "0.3", features = ["macros", "formatting", "local-offset"] }
