[package]
name = "command_history"
version = "0.1.0"
edition = "2021"
publish = false

[dependencies]
itertools = "0.14"
ratatui = { version = "0.29", default-features = false }
