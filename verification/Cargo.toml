[package]
name = "fst_store"
version = "0.1.0"
edition = "2021"
publish = false

[dependencies]
fst = "0.4"
memmap2 = "0.9"
rand = "0.8"
bs58 = "0.5"
bech32 = "0.9"
crossbeam-channel = "0.5"
