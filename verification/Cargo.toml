[package]
name = "agnostic_orderbook"
version = "0.1.0"
edition = "2021"
publish = false

[dependencies]
bonfida-utils = "*"
solana-program = "*"
borsh = "*"
bytemuck = "*"
num-traits = "*"
num-derive = "*"
thiserror = "*"

[dev-dependencies]
rand = "0.8"
