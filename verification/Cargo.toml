[package]
name = "food_generator2"
version = "0.1.0"
edition = "2021"
publish = false

[dependencies]
anyhow = "1"
bytes = "1"
clap = { version = "4", features = ["derive"] }
deflate = "1"
inflate = "0.4"
unicode-ident = "1"
