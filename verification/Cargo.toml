[package]
name = "parse_runner"
version = "0.1.0"
edition = "2021"
publish = false

[dependencies]
glob = "0.3"
anyhow = "1"
clap = "*"
