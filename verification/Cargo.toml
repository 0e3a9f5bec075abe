[package]
name = "surreal_value"
version = "0.1.0"
edition = "2021"
publish = false

[dependencies]
surrealdb-core = { version = "=1.5.6", default-features = false }

[dev-dependencies]
serde_json = "*"
