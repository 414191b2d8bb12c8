[package]
name = "sandbox"
version = "0.1.0"
edition = "2021"
publish = false

[dependencies]
anyhow = "*"
colored = "*"
diffy = "*"
libc = "*"
log = "*"
nix = { version = "0.29", features = ["fs", "user"] }
