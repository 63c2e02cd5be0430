[package]
name = "weibian"
version = "0.1.0"
edition = "2021"
publish = false

[dependencies]
anyhow = "1"
chrono = { version = "0.4", default-features = false, features = ["std", "clock"] }
clap = { version = "4", features = ["derive", "env"] }
color-print = "*"
comemo = "*"
dom_query = "*"
ecow = "*"
figment = { version = "0.10", features = ["toml"] }
globset = "*"
jiff = "*"
minijinja = "*"
notify-debouncer-full = "*"
petgraph = "*"
serde = { version = "1", features = ["derive"] }
termcolor = "*"
typst = "*"
typst-html = "*"
typst-kit = { version = "*", default-features = false }
typst-syntax = "*"
walkdir = "*"
