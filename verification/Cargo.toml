[package]
name = "trait-kit"
version = "0.5.0"
edition = "2021"
publish = false

[dependencies]
confers = { version = "=0.5.1", default-features = false, features = ["encryption", "feature-toggle"] }
serde = { version = "=1.0.229", features = ["derive"] }
serde_json = "=1.0.154"
thiserror = "=2.0.21"
