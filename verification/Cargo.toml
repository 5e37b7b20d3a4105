[package]
name = "ccvl"
version = "0.1.0"
edition = "2021"
publish = false

[dependencies]
anyhow = "1"
clap = { version = "4", features = ["derive"] }
lopdf = "*"
regex = "1"
serde = { version = "1", features = ["derive"] }
serde_json = "1"
sha2 = "*"
tempfile = "3"
unicode-normalization = "0.1"
ureq = { version = "3", features = ["json"] }
walkdir = "2"
