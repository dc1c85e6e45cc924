[package]
name = "durable_kv"
version = "0.1.0"
edition = "2021"
publish = false

[dependencies]
byteorder = "1"
rand = "0.8"
sha1 = "0.10"
