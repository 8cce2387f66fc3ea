[package]
name = "deamination"
version = "0.1.0"
edition = "2021"
publish = false

[dependencies]
anyhow = "1"
rust-htslib = { version = "*", default-features = false }
structopt = "0.3"
