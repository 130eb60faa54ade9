[package]
name = "ascii_moon_phase"
version = "0.1.0"
edition = "2021"
publish = false

[dependencies]
clap = { version = "4", features = ["derive"] }
time = "0.3"
