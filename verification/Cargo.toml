[package]
name = "timed_sweep"
version = "0.1.0"
edition = "2021"
publish = false

[dependencies]
csv = "*"
indicatif = "*"
plotters = { version = "*", default-features = false, features = ["svg_backend", "ab_glyph"] }
