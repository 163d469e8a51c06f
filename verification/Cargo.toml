[package]
name = "hyperchess"
version = "0.1.0"
edition = "2021"
publish = false

[dependencies]
smallvec = "1"
rand = "0.8"
serde = { version = "1", features = ["derive"] }
bincode = "1"
toml = "*"
rayon = "1"
tokio = { version = "1", features = ["full"] }
axum = "0.7"
uuid = { version = "1", features = ["v4"] }
dashmap = "*"
redis = "*"
deadpool-redis = "*"
