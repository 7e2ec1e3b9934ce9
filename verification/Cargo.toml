[package]
name = "rs-dpkg"
version = "0.1.0"
edition = "2021"
publish = false

[dependencies]
ar = "=0.9.0"
flate2 = "=1.1.10"
rust-lzma = "*"
md5 = "=0.8.1"
tar = "=0.4.46"
termion = "=4.0.6"
