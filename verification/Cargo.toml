[package]
name = "frc20"
version = "0.1.0"
edition = "2021"
publish = false

[dependencies]
blake2b_simd = "*"
cid = "0.11"
serde = { version = "*", features = ["derive"] }
serde_json = "*"
fvm_ipld_encoding = "*"
fvm_shared = "*"
