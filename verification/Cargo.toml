[package]
name = "lp_staking"
version = "0.1.0"
edition = "2021"
publish = false

[dependencies]
cosmwasm-bignumber = "*"
cosmwasm-std = "1"
cw20 = "1"
cw-storage-plus = "1"
terraswap = "*"
schemars = "0.8"
serde = { version = "1", features = ["derive"] }
thiserror = "1"
