[package]
name = "journal_tasks"
version = "0.1.0"
edition = "2021"
publish = false

[dependencies]
toml = "*"
chrono = "*"
dirs = "*"
