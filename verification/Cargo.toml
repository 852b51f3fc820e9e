[package]
name = "priv_ins"
version = "0.1.0"
edition = "2021"
publish = false

[dependencies]
rand = "*"
sha3 = "*"
tokio = { version = "*", features = ["sync", "rt", "rt-multi-thread", "macros"] }
tide = "*"
serde = { version = "*", features = ["derive"] }
serde_json = "*"
async-std = "*"
async-trait = "*"
futures = "*"
log = "*"
num-traits = "*"
