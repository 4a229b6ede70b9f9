[package]
name = "sed"
version = "0.1.0"
edition = "2021"
publish = false

[dependencies]
fancy-regex = "0.14"
memchr = "2"
memmap2 = "0.9"
regex = "1"
uucore = { version = "0.1", features = ["libc"] }
