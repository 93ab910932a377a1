[package]
name = "vesting_base"
version = "0.1.0"
edition = "2021"
publish = false

[dependencies]
cosmwasm-std = "2"
cw20 = "2"
serde = { version = "1", features = ["derive"] }
