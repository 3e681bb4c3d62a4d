[package]
name = "search_rl"
version = "0.1.0"
edition = "2021"
publish = false

[dependencies]
rand = "=0.9.5"
itertools = "=0.14.0"
burn = { version = "=0.16.1", default-features = false, features = ["std", "dataset"] }
