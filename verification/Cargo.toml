[package]
name = "orderbook"
version = "0.1.0"
edition = "2021"
publish = false

[dependencies]
futures-util = { version = "*", features = ["sink"] }
serde = { version = "1", features = ["derive"] }
serde_json = "1"
tokio = { version = "1", features = ["macros", "net", "rt-multi-thread"] }
tokio-tungstenite = "*"

[dev-dependencies]
ordered-float = "*"
