[package]
name = "arith_drill"
version = "0.1.0"
edition = "2021"
publish = false

[dependencies]
rand = "0.8"
term = "0.7"
