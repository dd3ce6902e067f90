[package]
name = "sd_id128"
version = "0.1.0"
edition = "2021"
publish = false

[dependencies]
sd-sys = "*"
