[package]
name = "touchhle"
version = "0.1.0"
edition = "2021"
publish = false

[dependencies]
encoding_rs = "0.8"
plist = "1"
rusttype = "0.9"
