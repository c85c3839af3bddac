[package]
name = "pagebuf"
version = "0.1.0"
edition = "2021"
publish = false

[dependencies]
concurrent-queue = "*"
blocking = "*"
libc = "*"
once_cell = "*"
