[package]
name = "iofs"
version = "0.1.0"
edition = "2021"
publish = false

[dependencies]
url = "2"
warp = "0.3"
