[package]
name = "editorconfig"
version = "0.1.0"
edition = "2021"
publish = false

[dependencies]
regex = "*"
ordermap = "*"
rust-ini = "*"
argparse = "*"
