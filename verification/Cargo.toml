[package]
name = "tlook"
version = "0.1.0"
edition = "2021"
publish = false

[dependencies]
shell-words = "*"
clap = { version = "*", features = ["derive"] }
color-eyre = "*"
crossterm = "*"
env_logger = "*"
log = "*"
ratatui = "*"
