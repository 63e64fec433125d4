[package]
name = "orgtree"
version = "0.1.0"
edition = "2021"
publish = false

[dependencies]
axum = "=0.7.9"
serde = { version = "=1.0.229", features = ["derive"] }
tokio = { version = "=1.54.1", features = ["macros", "net", "process", "rt-multi-thread"] }
tower = "=0.4.13"
tower-http = { version = "=0.5.2", features = ["fs", "set-header"] }
