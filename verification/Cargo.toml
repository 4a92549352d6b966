[package]
name = "keccak_mmr"
version = "0.1.0"
edition = "2021"
publish = false

[dependencies]
tiny-keccak = { version = "2", features = ["keccak"] }
hex = "*"
serde = { version = "1", features = ["derive"] }
serde_json = "1"

[dev-dependencies]
ckb-merkle-mountain-range = "*"
