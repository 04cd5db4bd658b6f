[package]
name = "one_brc_rs"
version = "0.1.0"
edition = "2021"
publish = false

[dependencies]
fxhash = "0.2"
libc = "0.2"
rayon = "1"
