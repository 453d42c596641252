[package]
name = "ggpo"
version = "0.1.0"
edition = "2021"
publish = false

[dependencies]
async-dup = "1"
async-net = "1"
bincode = "1"
bytes = "1"
log = "0.4"
smol = "1"
thiserror = "1"
