[package]
name = "seedphraser"
version = "0.1.0"
edition = "2021"
publish = false

[dependencies]
tiny-bip39 = "*"
base64 = "*"
clap = "*"
