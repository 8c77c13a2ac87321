[package]
name = "bitcoin_wallet"
version = "0.1.0"
edition = "2021"
publish = false

[dependencies]
rand = "0.8"
sha2 = "0.10"
unicode-normalization = "0.1"
