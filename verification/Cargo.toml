[package]
name = "codex_toolkit"
version = "0.1.0"
edition = "2021"
publish = false

[dependencies]
chrono = "0.4"
filetime = "0.2"
reqwest = { version = "0.12", features = ["blocking", "json"] }
rusqlite = "*"
serde = { version = "1", features = ["derive"] }
serde_json = "1"
toml_edit = "*"
tungstenite = "*"
