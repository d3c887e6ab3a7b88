[package]
name = "graphite"
version = "0.1.0"
edition = "2021"
publish = false

[dependencies]
byteorder = "1"
docopt = "1"
env_logger = "*"
log = "0.4"
time = "*"
