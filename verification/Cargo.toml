[package]
name = "gkr"
version = "0.1.0"
edition = "2021"
publish = false

[dependencies]
ark-bn254 = { version = "=0.5.0", default-features = false, features = ["scalar_field"] }
ark-ff = { version = "=0.5.0", default-features = false }
ark-poly = { version = "=0.5.0", default-features = false }
num-bigint = "=0.4.8"
num-traits = "=0.2.19"
rand = "=0.8.8"
sha3 = "=0.10.9"
