[package]
name = "local_blockchain"
version = "0.1.0"
edition = "2021"
publish = false

[dependencies]
sha3 = "*"
async-trait = "*"
thiserror = "*"
