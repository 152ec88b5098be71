[package]
name = "mdr"
version = "0.1.0"
edition = "2021"
publish = false

[dependencies]
pulldown-cmark = { version = "0.12", default-features = false }
nucleo-matcher = "0.3"
unicode-width = "0.2"
dirs = "5"
ratatui = "0.29"
crossterm = "0.28"
notify = "6"
serde = { version = "1", features = ["derive"] }
toml = "0.8"
