[package]
name = "raptor"
version = "0.1.0"
edition = "2021"
publish = false

[dependencies]
serde = { version = "1", features = ["derive"] }
serde_json = "1"
tokio = { version = "1", features = ["fs", "time", "rt", "rt-multi-thread", "macros", "process", "net"] }
once_cell = "1"
