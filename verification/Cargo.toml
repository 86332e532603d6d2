[package]
name = "cbzpack"
version = "0.1.0"
edition = "2021"
publish = false

[dependencies]
anyhow = "1"
clap = { version = "4", features = ["derive"] }
rayon = "1"
zip = { version = "*", default-features = false, features = ["deflate"] }
