[package]
name = "asm_tl"
version = "0.1.0"
edition = "2021"
publish = false

[dependencies]
memchr = "2"
