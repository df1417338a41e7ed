[package]
name = "ll"
version = "0.1.0"
edition = "2021"
publish = false

[dependencies]
anyhow = "1"
chrono = "0.4"
colored = "2"
crossterm = "*"
lazy_static = "1"
serde = { version = "1", features = ["derive"] }
serde_json = "1"
strip-ansi-escapes = "0.1"
tokio = { version = "1", features = ["rt", "rt-multi-thread", "time", "macros"] }
