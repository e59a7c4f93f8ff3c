[package]
name = "cloud_vm"
version = "1.0.0"
edition = "2021"
publish = false

[dependencies]
clap = { version = "*", features = ["derive"] }
humansize = "*"
semver = "*"
