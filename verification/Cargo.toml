[package]
name = "finance_store"
version = "0.1.0"
edition = "2021"
publish = false

[dependencies]
chrono = { version = "=0.4.45", default-features = false, features = ["std", "serde"] }
calamine = "=0.37.0"
serde = { version = "=1.0.229", features = ["derive"] }
rusqlite = { version = "=0.40.2", features = ["bundled-sqlcipher", "chrono"] }
