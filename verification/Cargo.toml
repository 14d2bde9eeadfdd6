[package]
name = "ayumi"
version = "0.1.0"
edition = "2021"
publish = false

[dependencies]
nvim-oxi = { version = "*", features = ["neovim-0-10"] }
tane = "*"
thiserror = "*"
