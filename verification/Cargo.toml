[package]
name = "makemessages"
version = "0.1.0"
edition = "2021"
publish = false

[dependencies]
regex = "1"
fancy-regex = "*"
indexmap = "2"
ignore = "*"
clap = { version = "4", features = ["derive"] }
rayon = "1"
anyhow = "1"
