[package]
name = "fod_reports"
version = "0.1.0"
edition = "2021"
publish = false

[dependencies]
anyhow = "*"
rayon = "*"
tempfile = "*"
