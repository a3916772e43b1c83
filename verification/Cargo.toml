[package]
name = "fhe_egraph"
version = "0.1.0"
edition = "2021"
publish = false

[dependencies]
egg = { version = "=0.11.0", features = ["lp"] }
good_lp = "=1.15.3"
