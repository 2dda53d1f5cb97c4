[package]
name = "anonymous_credit_tokens"
version = "0.1.0"
edition = "2021"
publish = false

[dependencies]
blake3 = "1"
curve25519-dalek = { version = "4", features = ["rand_core", "group"] }
group = "0.13"
rand_core = { version = "0.6", features = ["getrandom"] }
subtle = "2"
