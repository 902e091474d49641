[package]
name = "ext2_fuse"
version = "0.1.0"
edition = "2021"
publish = false

[dependencies]
env_logger = "0.7"
fuse = "0.3"
libc = "0.2"
time = "0.1"
