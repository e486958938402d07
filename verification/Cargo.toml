[package]
name = "chop_reads"
version = "0.1.0"
edition = "2021"
publish = false

[dependencies]
rust-htslib = { version = "*", default-features = false }
clap = { version = "*", features = ["derive"] }
