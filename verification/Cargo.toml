[package]
name = "launcher"
version = "0.1.0"
edition = "2021"
publish = false

[dependencies]
anyhow = "1"
env_logger = "0.11"
freedesktop_entry_parser = "2"
freedesktop-icons = "0.4"
fuzzy-matcher = "0.3"
linicon-theme = "1"
rayon = "1"
shell-words = "1"
