[package]
name = "prompt_pack"
version = "0.1.0"
edition = "2021"
publish = false

[dependencies]
regex = "1"
