[package]
name = "shell"
version = "0.1.0"
edition = "2021"
publish = false

[dependencies]
nix = { version = "0.30", features = ["process", "signal", "fs"] }
clap = { version = "4", features = ["derive"] }
anyhow = "1"
