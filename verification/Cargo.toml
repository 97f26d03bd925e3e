[package]
name = "surreal_id"
version = "0.1.0"
edition = "2021"
publish = false

[dependencies]
surrealdb = { version = "*", default-features = false }
thiserror = "*"
