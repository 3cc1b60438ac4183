[package]
name = "verkle_verifier"
version = "0.1.0"
edition = "2021"
publish = false

[dependencies]
ark-ed-on-bls12-381-bandersnatch = "0.4"
ark-ec = "0.4"
ark-ff = "0.4"
ark-serialize = "0.4"
sha2 = "0.10"
thiserror = "1"
