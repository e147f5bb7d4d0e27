[package]
name = "non_blocking_poll_server"
version = "0.1.0"
edition = "2021"
publish = false

[dependencies]
libc = "*"
