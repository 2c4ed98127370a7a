[package]
name = "topple"
version = "0.1.0"
edition = "2021"
publish = false

[dependencies]
fontdue = "0.9"
png = "0.17"
