[package]
name = "polyshell"
version = "0.1.0"
edition = "2021"
publish = false

[dependencies]
anyhow = "1"
libc = "0.2"
string_cache = { version = "*", default-features = false }
termion = "*"
