[package]
name = "fxi"
version = "0.1.0"
edition = "2021"
publish = false

[dependencies]
anyhow = "1"
clap = { version = "4", features = ["derive"] }
crossterm = "*"
dirs = "*"
globset = "0.4"
libc = "0.2"
memchr = "2"
memmap2 = "0.9"
notify = "*"
ratatui = "*"
rayon = "1"
regex = "1"
regex-syntax = "0.8"
roaring = "*"
serde = { version = "1", features = ["derive"] }
serde_json = "1"
syntect = { version = "5", default-features = false, features = ["default-fancy"] }
termcolor = "1"
toml = "*"

[dev-dependencies]
tempfile = "3"
