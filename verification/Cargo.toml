[package]
name = "natural_sort"
version = "0.1.0"
edition = "2021"

[dev-dependencies]
rand = "0.9"
rand_chacha = "0.9"
