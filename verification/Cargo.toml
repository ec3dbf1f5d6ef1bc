[package]
name = "samanlainen"
version = "0.1.0"
edition = "2021"
publish = false

[dependencies]
atty = "0.2"
clap = { version = "4", features = ["derive"] }
parse-size = "1"
sha2 = "0.10"
termcolor = "1"
walkdir = "2"
