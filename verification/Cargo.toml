[package]
name = "x11_input_mirror"
version = "0.1.0"
edition = "2021"
publish = false

[dependencies]
chacha = "0.3"
rand = "0.8"
sha3 = "0.8"
serde = "1"
serde_derive = "1"
toml = "0.5"
