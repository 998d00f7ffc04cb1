[package]
name = "zesplot"
version = "0.1.0"
edition = "2021"
publish = false

[dependencies]
clap = "4"
csv = "1"
flate2 = "1"
ipnetwork = "*"
log = "0.4"
simplelog = "*"
svg = "*"
