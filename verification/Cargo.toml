[package]
name = "league-simulator-rust"
version = "0.1.0"
edition = "2021"
publish = false

[dependencies]
axum = "0.7"
rand = "0.8"
rayon = "1"
serde = { version = "1", features = ["derive"] }
statrs = { version = "0.18", default-features = false }
tokio = { version = "1", features = ["full"] }
tower-http = { version = "0.5", features = ["cors"] }
