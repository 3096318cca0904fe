[package]
name = "qemulbench"
version = "0.1.0"
edition = "2021"
publish = false

[dependencies]
base64 = "0.22"
zstd = "*"
clap = { version = "4", features = ["derive"] }
libc = "*"
nix = { version = "*", features = ["signal", "process"] }
tar = "*"
tempfile = "*"
