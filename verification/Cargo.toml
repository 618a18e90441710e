[package]
name = "rudp"
version = "0.1.0"
edition = "2021"
publish = false

[dependencies]
byteorder = "1"
mio = "0.6"
rand = "0.6"
