[package]
name = "aisd_tree"
version = "0.1.0"
edition = "2021"
publish = false

[dependencies]
itertools = "0.14"
rand = "0.9"
rayon = "1"
plotters = { version = "0.3", default-features = false, features = ["bitmap_backend", "bitmap_encoder", "line_series"] }
