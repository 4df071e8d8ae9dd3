[package]
name = "threadctl"
version = "0.1.0"
edition = "2021"
publish = false

[dependencies]
aya = "0.13"
kdl = "6"
libc = "0.2"
