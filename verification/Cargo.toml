[package]
name = "macro_editor"
version = "0.1.0"
edition = "2021"
publish = false

[dependencies]
anyhow = "1"
crossterm = "0.28"
ratatui = "0.29"
serde_json = "1"
syntect = { version = "5", default-features = false, features = ["default-fancy"] }
