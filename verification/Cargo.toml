[package]
name = "nix2flatpak"
version = "0.1.0"
edition = "2021"
publish = false

[dependencies]
anyhow = "1"
clap = { version = "4", features = ["derive"] }
goblin = "0.9"
regex = "1"
serde_json = "1"
walkdir = "2"
