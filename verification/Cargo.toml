[package]
name = "jerome"
version = "0.1.0"
edition = "2021"
publish = false

[dependencies]
bidir-map = "*"
indexmap = "*"
itertools = "*"
ndarray = "*"
ndarray-rand = "*"
rand = "*"
