[package]
name = "agentik"
version = "0.1.0"
edition = "2021"
publish = false

[dependencies]
unicode-width = "=0.2.0"
serde = { version = "=1.0.229", features = ["derive"] }
serde_json = "=1.0.154"
ratatui = { version = "=0.30.2", features = ["unstable-rendered-line-info"] }
crossterm = "=0.29.0"
tui-markdown = "=0.3.13"
rusqlite = { version = "=0.32.1", features = ["bundled"] }
