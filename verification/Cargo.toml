[package]
name = "srt_linter"
version = "0.2.0"
edition = "2021"
publish = false

[dependencies]
ratatui = "*"
clap = { version = "*", features = ["derive"] }
