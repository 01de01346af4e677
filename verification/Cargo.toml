[package]
name = "xvcd"
version = "0.1.0"
edition = "2021"
publish = false

[dependencies]
byteorder = "=1.5.0"
clap = { version = "=4.6.7", features = ["derive"] }
env_logger = "=0.11.11"
ftdi-nusb = { version = "=0.3.0", features = ["tokio"] }
log = "=0.4.35"
nusb = { version = "=0.2.9", features = ["tokio"] }
tokio = { version = "=1.54.1", features = ["full"] }
