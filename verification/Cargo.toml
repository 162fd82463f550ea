[package]
name = "tikv"
version = "0.1.0"
edition = "2021"
publish = false

[dependencies]
byteorder = "1"
rand = "0.7"
nix = { version = "*", features = ["process", "resource"] }
rustix = { version = "*", features = ["process"] }
libc = "0.2"
clap = "2"
