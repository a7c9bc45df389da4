[package]
name = "cargo_trim"
version = "0.1.0"
edition = "2021"
publish = false

[dependencies]
anyhow = "1"
owo-colors = "*"
semver = "1"
