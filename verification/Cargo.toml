[package]
name = "erlterm"
version = "0.1.0"
edition = "2021"
publish = false

[dependencies]
regex = "1"
num-bigint = "0.4"
num-traits = "0.2"
