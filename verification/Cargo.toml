[package]
name = "t4"
version = "0.1.0"
edition = "2021"
publish = false

[dependencies]
arbitrary = "1"
async-task = "4"
crossbeam-channel = "0.5"
io-uring = "0.7"
libc = "0.2"
log = "0.4"
pollster = "*"
tempfile = "3"
