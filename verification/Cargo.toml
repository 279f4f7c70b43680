[package]
name = "zip_chunker"
version = "0.1.0"
edition = "2021"
publish = false

[dependencies]
clap = { version = "4", features = ["derive"] }
csv = "1"
glob = "0.3"
indicatif = "0.17"
zip = { version = "0.6", default-features = false }
