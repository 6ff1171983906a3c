[package]
name = "ase2ttf_core"
version = "0.1.0"
edition = "2021"
publish = false

[dependencies]
asefile = "*"
chrono = "*"
clap = { version = "*", features = ["derive"] }
kurbo = "*"
write-fonts = "*"
