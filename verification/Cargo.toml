[package]
name = "submatch"
version = "0.1.0"
edition = "2021"
publish = false

[dependencies]
levenshtein = "1"
clap = { version = "4", features = ["derive"] }
rayon = "1"
