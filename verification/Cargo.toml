[package]
name = "riddle"
version = "0.1.0"
edition = "2021"
publish = false

[dependencies]
ab_glyph = "0.2"
libc = "0.2"
signal-hook = "0.3"
ureq = "2"
