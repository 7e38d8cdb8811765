[package]
name = "bintree"
version = "0.1.0"
edition = "2021"
publish = false

[dependencies]
bitter = "*"
evalexpr = "11"
serde_json = "1"
