[package]
name = "fuzzyd"
version = "0.1.0"
edition = "2021"
publish = false

[dependencies]
clap = { version = "*", features = ["derive"] }
dirs = "*"
rand = "*"
rayon = "*"
serde = { version = "*", features = ["derive"] }
termion = "*"
toml = "*"
unicode-segmentation = "*"
unicode-width = "*"
walkdir = "*"
which = "*"
xdg = "*"
