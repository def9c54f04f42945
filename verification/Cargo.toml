[package]
name = "cats"
version = "0.1.0"
edition = "2021"
publish = false

[dependencies]
clap = "4"
flate2 = "1"
hex = "0.4"
sha2 = "0.10"
