[package]
name = "aoe2_ml"
version = "0.1.0"
edition = "2021"
publish = false

[dependencies]
csv = "1"
rand = "0.8"
rayon = "1"
plotters = "0.3"
