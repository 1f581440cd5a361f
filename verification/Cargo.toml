[package]
name = "cobra_lang"
version = "0.1.0"
edition = "2021"
publish = false

[dependencies]
libc = "0.2"
