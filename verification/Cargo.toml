[package]
name = "toipe"
version = "0.1.0"
edition = "2021"
publish = false

[dependencies]
anyhow = "1.0"
clap = { version = "3", features = ["derive"] }
termion = "1.5"
