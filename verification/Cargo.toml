[package]
name = "neural_ascii"
version = "0.1.0"
edition = "2021"
publish = false

[dependencies]
ndarray = "0.15"
ndarray-rand = "0.14"
rand_distr = "0.4"
clap = "4"
mnist = "*"

[dev-dependencies]
serde_json = "1"
