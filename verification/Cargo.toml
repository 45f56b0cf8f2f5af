[package]
name = "pakr"
version = "0.1.0"
edition = "2021"
publish = false

[dependencies]
anyhow = "*"
arboard = "*"
clap = { version = "*", features = ["derive"] }
crossterm = "*"
ignore = "*"
ratatui = "*"
