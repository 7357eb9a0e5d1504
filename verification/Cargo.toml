[package]
name = "connect_four_solver"
version = "0.1.0"
edition = "2021"
publish = false

[dependencies]
dashmap = "*"
rand = "*"
rand_pcg = "*"
