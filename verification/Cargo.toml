[package]
name = "sudoku"
version = "0.1.0"
edition = "2021"
publish = false

[dependencies]
clap = { version = "4", features = ["derive"] }
colog = "*"
log = "0.4"
serde = { version = "1", features = ["derive"] }
toml = "*"
