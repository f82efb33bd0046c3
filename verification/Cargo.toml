[package]
name = "word_freq"
version = "0.1.0"
edition = "2021"
publish = false

[dependencies]
dashmap = "*"
clap = { version = "*", features = ["derive"] }
console = "*"
csv = "*"
humantime = "*"
indicatif = "*"
rayon = "*"
walkdir = "*"
