[package]
name = "darkfi_core"
version = "0.1.0"
edition = "2021"
publish = false

[dependencies]
hex = "*"
blake3 = "*"
rand = "*"
crypto_box = "*"
serde_json = "*"
url = "*"
