[package]
name = "flac_encoder"
version = "0.1.0"
edition = "2021"
publish = false

[dependencies]
byteorder = "1"
md-5 = "0.10"
