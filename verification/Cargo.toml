[package]
name = "keysnoise"
version = "0.1.0"
edition = "2021"
publish = false

[dependencies]
gtk4 = "0.9"
hound = "3"
libc = "0.2"
rodio = { version = "0.19", default-features = false }
