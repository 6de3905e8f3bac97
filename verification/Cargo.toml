[package]
name = "rkv"
version = "0.1.0"
edition = "2021"
publish = false

[dependencies]
atoi = "0.2"
bincode = "0.9"
byteorder = "1"
clap = "2"
env_logger = "0.5"
hex = "0.3"
log = "0.4"
openssl = "0.10"
serde = "1"
serde_derive = "1"
