[package]
name = "math"
version = "0.1.0"
edition = "2021"
publish = false

[dependencies]
rayon = "=1.12.0"
clap = { version = "=4.6.7", features = ["derive"] }
