[package]
name = "tubings"
version = "0.1.0"
edition = "2021"
publish = false

[dependencies]
colored = "2"
itertools = "0.12"
rand = "0.8"
rayon = "1"
