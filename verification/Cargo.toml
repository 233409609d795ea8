[package]
name = "cushion"
version = "0.1.0"
edition = "2021"
publish = false

[dependencies]
pyth-sdk-solana = "=0.10.6"
solana-program = "=1.18.26"

[dev-dependencies]
bytemuck = "1"
