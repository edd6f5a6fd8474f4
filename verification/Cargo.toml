[package]
name = "web_diary"
version = "0.1.0"
edition = "2021"
publish = false

[dependencies]
pulldown-cmark = "*"
ammonia = "*"
rusqlite = "*"
axum = "*"
tokio = { version = "*", features = ["rt", "net", "macros"] }
serde = { version = "*", features = ["derive"] }
log = "*"
pretty_env_logger = "*"
tower-http = { version = "*", features = ["fs", "trace"] }
