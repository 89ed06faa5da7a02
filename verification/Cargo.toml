[package]
name = "pg_graphwright"
version = "0.1.0"
edition = "2021"
publish = false

[dependencies]
pgrx = { version = "0.18", features = ["pg17"], default-features = false }
