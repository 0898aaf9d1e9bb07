[package]
name = "appmanager"
version = "0.1.0"
edition = "2021"
publish = false

[dependencies]
jwalk = "*"
winreg = "*"
serde = { version = "1", features = ["derive"] }
serde_json = "1"
