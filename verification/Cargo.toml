[package]
name = "simpy_rs"
version = "0.1.0"
edition = "2021"
publish = false

[dependencies]
mlua = { version = "=0.9.9", features = ["lua54", "vendored"] }
serde = { version = "=1.0.229", features = ["derive"] }
serde_json = "=1.0.154"
thiserror = "=1.0.69"
tokio = { version = "1", default-features = false, features = ["sync"] }
tracing = "=0.1.44"
