[package]
name = "lotus"
version = "0.1.0"
edition = "2021"
publish = false

[dependencies]
clap = { version = "4", features = ["derive"] }
hex = "0.4"
num-bigint = "0.4"
num-traits = "0.2"
thiserror = "1"
