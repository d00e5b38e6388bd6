[package]
name = "dope"
version = "0.1.0"
edition = "2021"
publish = false

[dependencies]
regex = "1"
mlua = { version = "0.10", features = ["lua54", "module"] }
