[package]
name = "cp_solver"
version = "0.1.0"
edition = "2021"
publish = false

[dependencies]
arrow-schema = "*"

[dev-dependencies]
rand = "0.8"
