[package]
name = "pung"
version = "0.1.0"
edition = "2021"
publish = false

[dependencies]
bit-vec = "*"
byteorder = "1"
getopts = "0.2"
libc = "0.2"
rand = "0.4"
rust-crypto = "0.2.36"
time = "0.1"
