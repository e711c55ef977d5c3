[package]
name = "neko"
version = "0.1.0"
edition = "2021"
publish = false

[dependencies]
termion = "1"
chan = "0.1"
pty = "*"
libc = "0.2"
pty-shell = "*"
