[package]
name = "paro"
version = "0.1.0"
edition = "2021"
publish = false

[dependencies]
regex = "1"
walkdir = "2"
nix = { version = "*", features = ["user", "hostname"] }
serde = { version = "1", features = ["derive"] }
termion = "*"
