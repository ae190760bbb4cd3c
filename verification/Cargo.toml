[package]
name = "contig_rename"
version = "0.1.0"
edition = "2021"
publish = false

[dependencies]
argparse-rs = "*"
csv = "*"
linear-map = "*"
rust-htslib = { version = "*", default-features = false }
serde = { version = "*", features = ["derive"] }
