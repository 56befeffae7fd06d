[package]
name = "asc-rs"
version = "0.1.0"
edition = "2021"
publish = false

[dependencies]
adler2 = "2"
aho-corasick = "1"
anyhow = "1"
clap = { version = "4", features = ["derive"] }
rayon = "1"
serde_json = "1"
sha1 = "0.10"
tempfile = "3"
zip = "0.6"
