[package]
name = "rsearch"
version = "0.1.0"
edition = "2021"
publish = false

[dependencies]
anyhow = "1"
bincode = "1"
clap = { version = "4", features = ["derive"] }
crossterm = "0.28"
ignore = "0.4"
ratatui = "0.29"
serde = { version = "1", features = ["derive"] }
