[package]
name = "elrond_codec"
version = "0.1.0"
edition = "2021"
publish = false

[dependencies]
sha3 = "*"
num-bigint = "*"
num-traits = "*"
hex = "*"
