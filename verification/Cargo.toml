[package]
name = "structure_your_story"
version = "0.1.0"
edition = "2021"
publish = false

[dependencies]
chrono = { version = "0.4", features = ["serde"] }
serde = { version = "1", features = ["derive"] }
serde_json = "1"
rust-embed = "8"
uuid = { version = "1", features = ["v4"] }
inquire = "0.7"
colored = "2"
crossterm = "0.27"
ratatui = "0.26"
printpdf = "0.7"
