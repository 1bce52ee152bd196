[package]
name = "tty_events"
version = "0.1.0"
edition = "2021"
publish = false

[dependencies]
libc = "0.2"
mio = "0.6"
signal-hook = { version = "0.1", features = ["mio-support"] }
