[package]
name = "rusty_rail"
version = "0.1.0"
edition = "2021"
publish = false

[dependencies]
siphasher = "*"
libc = "*"
pnet = "*"
pnetlink = "*"
