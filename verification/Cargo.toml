[package]
name = "ziftsieve"
version = "0.1.3"
edition = "2021"
publish = false

[dependencies]
hashkit = "*"
snap = "1"

[dev-dependencies]
flate2 = "1"
zstd = "*"
