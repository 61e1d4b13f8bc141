[package]
name = "pack_match"
version = "0.1.0"
edition = "2021"
publish = false

[dependencies]
anyhow = "1"
chrono = "0.4"
clap = { version = "4", features = ["cargo"] }
csv = "1"
flexi_logger = "*"
libflate = "*"
log = "0.4"
rayon = "1"
