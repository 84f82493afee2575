[package]
name = "roundshadow"
version = "0.1.0"
edition = "2021"
publish = false

[dependencies]
clap = "2"
image = "0.24"
png = "0.17"
