[package]
name = "bstl"
version = "0.1.0"
edition = "2021"
publish = false

[dependencies]
chrono = "0.4"
color-eyre = "0.6"
crossterm = "0.29"
dirs = "*"
eyre = "0.6"
fuzzy-matcher = "0.3"
libc = "0.2"
quick-xml = "0.37"
ratatui = "*"
rusqlite = { version = "*", features = ["bundled"] }
serde = { version = "1", features = ["derive"] }
serde_json = "1"
toml = "*"
tui-input = "*"
