[package]
name = "rayon_logs"
version = "0.1.0"
edition = "2021"
publish = false

[dependencies]
byteorder = "1"
itertools = "0.10"
rayon = "1"
lazy_static = "1"
crossbeam = "0.8"
rand = "0.8"
