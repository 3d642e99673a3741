[package]
name = "avs_core"
version = "0.1.0"
edition = "2021"
publish = false

[dependencies]
bincode = "1"
hex = "0.4"
sha2 = "0.10"
tiny-keccak = { version = "2", features = ["keccak"] }
cosmwasm-std = "1"
cosmwasm-schema = "1"
cw-storage-plus = "1"
cw2 = "1"
osmosis-std = "0.22"
rs_merkle = "1"
serde = "1"
thiserror = "1"
