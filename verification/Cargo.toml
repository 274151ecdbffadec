[package]
name = "cosmic-freedesktop-icons"
version = "0.1.0"
edition = "2021"
publish = false

[dependencies]
btoi = "*"
memchr = "*"
memmap2 = "*"
tracing = "*"
xdg = "*"
