[package]
name = "calenderdot"
version = "0.1.0"
edition = "2021"
publish = false

[dependencies]
chrono = "0.4"
dirs = "*"
rusqlite = { version = "*", features = ["bundled"] }
tracing = "0.1"
tracing-subscriber = "0.3"
