[package]
name = "parachain_consensus"
version = "0.1.0"
edition = "2021"
publish = false

[dependencies]
async-trait = "0.1"
futures = "0.3"
parity-scale-codec = { version = "3", features = ["derive"] }
sp-consensus = "*"
sp-runtime = "*"
