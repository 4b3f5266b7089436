[package]
name = "dotfiles"
version = "0.1.0"
edition = "2021"
publish = false

[dependencies]
clap = { version = "*", features = ["env"] }
colored = "*"
dirs = "*"
fs_extra = "*"
promptly = "*"
