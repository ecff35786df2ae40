[package]
name = "biketrack"
version = "0.1.0"
edition = "2021"
publish = false

[dependencies]
rand = "0.8"
hex = "0.4"
uuid = { version = "1", features = ["v4"] }
serde = { version = "1", features = ["derive"] }
serde_json = "1"
axum = { version = "0.8", features = ["multipart"] }
tokio = { version = "1", features = ["rt-multi-thread", "macros", "sync", "net"] }
chrono = "0.4"
reqwest = { version = "0.12", default-features = false, features = ["json"] }

[dev-dependencies]
csv = "1"
