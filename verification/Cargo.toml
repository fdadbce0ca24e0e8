[package]
name = "geister"
version = "0.1.0"
edition = "2021"
publish = false

[dependencies]
data_structure = "=0.1.20"
itertools = "*"
rand = "*"
