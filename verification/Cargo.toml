[package]
name = "parallelpolicytree"
version = "0.1.0"
edition = "2021"
publish = false

[dependencies]
extendr-api = { version = "*", features = ["ndarray"] }
iter_utils = "*"
ordered-float = "*"
rayon = "*"
