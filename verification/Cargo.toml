[package]
name = "stance_bft"
version = "0.1.0"
edition = "2021"
publish = false

[dependencies]
sp-runtime = "=49.0.0"
sp-core = "=43.0.0"
sp-staking = "=46.0.0"
parity-scale-codec = { version = "=3.7.5", features = ["derive"] }
scale-info = { version = "=2.11.6", features = ["derive"] }
serde = { version = "=1.0.229", features = ["derive"] }
futures = "=0.3.34"
log = "=0.4.34"
async-trait = "=0.1.92"
