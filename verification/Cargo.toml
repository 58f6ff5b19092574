[package]
name = "plause"
version = "0.1.0"
edition = "2021"
publish = false

[dependencies]
rust-crypto = "0.2.36"
rand = "0.8"
getopts = "0.2"
