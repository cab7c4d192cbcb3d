[package]
name = "ntt_client"
version = "0.1.0"
edition = "2021"
publish = false

[dependencies]
flate2 = "1"
blake2 = "*"
rand = "*"
