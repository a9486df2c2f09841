[package]
name = "wc_rs"
version = "0.1.0"
edition = "2021"
publish = false

[dependencies]
memchr = "2"
unicode-width = "*"
clap = { version = "4", features = ["derive"] }
memmap2 = "0.9"
rayon = "1"
