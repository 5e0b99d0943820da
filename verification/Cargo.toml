[package]
name = "staked_gov"
version = "0.1.0"
edition = "2021"
publish = false

[dependencies]
cosmwasm-std = "1.5"
cosmwasm-storage = "1.5"
cw-storage-plus = "1.2"
cw20 = "1.1"
cw1155 = "*"
schemars = "0.8"
serde = { version = "1", features = ["derive"] }
