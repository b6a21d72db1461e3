[package]
name = "hpke-demo"
version = "0.1.0"
edition = "2021"
publish = false

[dependencies]
anyhow = "1"
getrandom = "0.3"
hpke = { version = "0.13", default-features = false, features = ["alloc", "x25519"] }
lexe-hex = "*"
