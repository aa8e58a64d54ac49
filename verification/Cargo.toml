[package]
name = "sysmon"
version = "0.1.0"
edition = "2021"
publish = false

[dependencies]
rustix = { version = "1.1", features = ["fs", "param"] }
serde = { version = "1", features = ["derive"] }
