[package]
name = "logblock"
version = "0.1.0"
edition = "2021"
publish = false

[dependencies]
anyhow = "*"
const_format = "*"
env_logger = "*"
log = "*"
nftables = "*"
regex = "*"
systemd = "*"
