[package]
name = "micrograd"
version = "0.1.0"
edition = "2021"
publish = false

[dependencies]
petgraph = "0.6"
plotters = { version = "0.3", default-features = false, features = ["bitmap_backend", "bitmap_encoder", "line_series", "point_series"] }
rand = "0.8"
uuid = { version = "1", features = ["v4"] }
