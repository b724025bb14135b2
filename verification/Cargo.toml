[package]
name = "backend"
version = "0.1.0"
edition = "2021"
publish = false

[dependencies]
fixed = "1"
serde = { version = "1", features = ["derive"] }
serde_repr = "0.1"
rmp-serde = "1"
thiserror = "2"
tokio = { version = "1", features = ["full"] }
tokio-util = { version = "0.7", features = ["codec"] }
tokio-stream = "0.1"
tokio-tungstenite = "*"
futures-util = { version = "0.3", features = ["sink"] }
bytes = "1"
hdrhistogram = { version = "7", features = ["sync"] }
tracing = "0.1"
tracing-subscriber = "0.3"
num-format = "0.4"
