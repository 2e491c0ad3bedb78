[package]
name = "taplo"
version = "0.1.0"
edition = "2021"
publish = false

[dependencies]
rowan = "*"
lsp-types = "0.74"
