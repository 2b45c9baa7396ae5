[package]
name = "sc_hsm_recrypt"
version = "0.1.0"
edition = "2021"
publish = false

[dependencies]
aes = "*"
anyhow = "*"
clap = "*"
crossterm = "*"
crypto-bigint = "*"
crypto-primes = "*"
md5 = "*"
rand = "*"

[dev-dependencies]
cbc = "*"
