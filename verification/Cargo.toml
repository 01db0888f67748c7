[package]
name = "file_tree"
version = "0.1.0"
edition = "2021"
publish = false

[dependencies]
rust-crypto = "*"
hex = "*"
rayon = "*"
clap = { version = "*", features = ["derive"] }
ratatui = "*"
crossterm = "*"
