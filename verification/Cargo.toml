[package]
name = "multimint"
version = "0.1.0"
edition = "2021"
publish = false

[dependencies]
fedimint-core = "=0.7.2"
fedimint-derive-secret = "=0.7.2"
bip39 = "2"
rand = "0.8"
lightning-invoice = "0.33"
anyhow = "1"
