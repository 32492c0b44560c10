[package]
name = "parsearch"
version = "0.1.0"
edition = "2021"
publish = false

[dependencies]
anyhow = "*"
clap = { version = "*", features = ["derive"] }
rayon = "*"
scraper = "*"
walkdir = "*"
