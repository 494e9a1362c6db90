[package]
name = "vole"
version = "0.1.0"
edition = "2021"
publish = false

[dependencies]
globset = "*"
anyhow = "*"
clap = { version = "*", features = ["derive"] }
crossterm = "*"
directories = "*"
humansize = "*"
libc = "*"
ratatui = "*"
serde = { version = "*", features = ["derive"] }
serde_json = "*"
shellexpand = "*"
walkdir = "*"
which = "*"
