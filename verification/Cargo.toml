[package]
name = "fe_compiler"
version = "0.1.0"
edition = "2021"
publish = false

[dependencies]
derive_more = { version = "*", features = ["from"] }
hex = "0.4"
salsa = "*"
tiny-keccak = { version = "2", features = ["keccak"] }
yultsur = "*"
