[package]
name = "replai"
version = "0.1.0"
edition = "2021"
publish = false

[dependencies]
unicode-segmentation = "1"
rustix = { version = "1", features = ["termios", "event", "fs", "pty", "stdio"] }
libc = "0.2"
