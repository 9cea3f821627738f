[package]
name = "sketch_explorer"
version = "0.1.0"
edition = "2021"
publish = false

[dependencies]
rand = "0.8"
rand_distr = "0.4"
rand_xorshift = "0.3"
plotters = { version = "0.3", default-features = false, features = ["full_palette"] }
plotters-canvas = "0.3"
