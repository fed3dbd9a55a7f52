[package]
name = "markovpass"
version = "0.1.0"
edition = "2021"
publish = false

[dependencies]
rand = "=0.8.8"
clap = { version = "=3.2.25", features = ["derive"] }
directories = "=4.0.1"
