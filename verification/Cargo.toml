[package]
name = "ping_core"
version = "0.1.0"
edition = "2021"
publish = false

[dependencies]
serde = { version = "*", features = ["derive"] }
serde_json = "*"
tokio = { version = "*", features = ["macros", "rt-multi-thread", "net", "signal", "time"] }
axum = { version = "*", features = ["ws"] }
tower-http = { version = "*", features = ["fs"] }
futures = "*"
kameo = { version = "*", features = ["remote"] }
libp2p = { version = "*", features = ["tokio", "tcp", "noise", "yamux", "macros"] }
