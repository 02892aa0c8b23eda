[package]
name = "grepclone"
version = "0.1.0"
edition = "2021"
publish = false

[dependencies]
clap = "3"
owo-colors = "3"
regex = "1"
