[package]
name = "bitvec_codec"
version = "0.1.0"
edition = "2021"
publish = false

[dependencies]
bitvec = "0.17.4"
byte-slice-cast = "0.3"
