[package]
name = "tbcompare"
version = "0.1.0"
edition = "2021"
publish = false

[dependencies]
anyhow = "*"
chardetng = "*"
chrono = "*"
clap = { version = "*", features = ["derive"] }
encoding_rs = "*"
encoding_rs_io = "*"
env_logger = "*"
indicatif = "*"
log = "*"
rayon = "*"
tempfile = "*"
