[package]
name = "rust_shell"
version = "0.1.0"
edition = "2021"
publish = false

[dependencies]
anyhow = "=1.0.104"
rustyline = "=19.0.0"
serde = { version = "=1.0.229", features = ["derive"] }
serde_json = "=1.0.154"
