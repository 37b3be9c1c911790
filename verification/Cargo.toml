[package]
name = "pool_api"
version = "0.1.0"
edition = "2021"
publish = false

[dependencies]
hex = "0.4"
blake2b_simd = "1"
chrono = "0.4"
toml = "0.8"
serde = { version = "1", features = ["derive"] }
serde_json = "1"
axum = "0.7"
tokio = { version = "1", features = ["full"] }
tracing = "0.1"
libc = "0.2"
sqlx = { version = "0.8", default-features = false, features = ["sqlite", "runtime-tokio"] }
