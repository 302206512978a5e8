[package]
name = "sudoku"
version = "0.1.0"
edition = "2021"
publish = false

[dependencies]
itertools = "*"
strum = { version = "*", features = ["derive"] }
thiserror = "*"
xml = "*"
log = "*"
clap = { version = "*", features = ["derive"] }
color-eyre = "*"
crossterm = "*"
ratatui = "*"
rayon = "*"
rayon-progress = "*"
