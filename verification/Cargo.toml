[package]
name = "hiero_journal"
version = "0.1.0"
edition = "2021"
publish = false

[dependencies]
hiero-streams = { version = "=0.3.0", default-features = false, features = ["block-proofs"] }
