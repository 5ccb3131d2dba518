[package]
name = "mbn"
version = "0.1.0"
edition = "2021"
publish = false

[dependencies]
time = "0.3"
serde = { version = "1", features = ["derive"] }
sqlx = { version = "0.8", default-features = false, features = ["derive"] }
pyo3 = "*"
