[package]
name = "iobeam"
version = "0.1.0"
edition = "2021"
publish = false

[dependencies]
anyhow = "=1.0.104"
arrayvec = "=0.7.8"
chrono = "=0.4.45"
clap = { version = "=4.6.7", features = ["derive"] }
httparse = "=1.10.1"
io-uring = "=0.7.15"
itoa = "=1.0.18"
libc = "=0.2.191"
mime_guess = "=2.0.5"
percent-encoding = "=2.3.2"
rand = "0.8"
slab = "=0.4.12"
