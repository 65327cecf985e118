[package]
name = "stress_test"
version = "0.2.0"
edition = "2021"
publish = false

[dependencies]
clap = { version = "4", features = ["derive"] }
rayon = "1"
tch = "*"
