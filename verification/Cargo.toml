[package]
name = "magic_bitboards"
version = "0.1.0"
edition = "2021"
publish = false

[dependencies]
rand = "0.8"
rand_xoshiro = "0.6"
bitflags = "1.3"
num-derive = "0.4"
num-traits = "0.2"
