[package]
name = "battle_royale"
version = "0.1.0"
edition = "2021"
publish = false

[dependencies]
rand = "*"
axum = "*"
tokio = { version = "*", features = ["macros", "rt-multi-thread", "sync", "time", "net"] }
serde = { version = "*", features = ["derive"] }
serde_json = "*"
