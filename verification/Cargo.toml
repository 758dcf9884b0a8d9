[package]
name = "psarc"
version = "0.1.0"
edition = "2021"
publish = false

[dependencies]
byteorder = "=1.5.0"
flate2 = "=1.1.10"
id_tree = "=1.8.0"
lzma-rs = "=0.3.0"
clap = "=2.34.0"
fuse = "=0.3.1"
libc = "=0.2.191"
time = "=0.1.45"
