[package]
name = "json_tree"
version = "0.1.0"
edition = "2021"
publish = false

[dependencies]
serde = "1"
serde-cw-value = "*"
serde-json-wasm = "*"
cosmwasm-std = "1"
