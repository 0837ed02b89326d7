[package]
name = "bzip2_rust"
version = "0.5.0"
edition = "2021"
publish = false

[dependencies]
rayon = "1"
clap = { version = "3", features = ["derive"] }
log = "0.4"
simplelog = "0.12"
