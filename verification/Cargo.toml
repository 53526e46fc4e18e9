[package]
name = "order_discount"
version = "0.1.0"
edition = "2021"
publish = false

[dependencies]
aes = "0.7"
base64 = "0.13"
block-modes = "0.8"
hex = "0.4"
