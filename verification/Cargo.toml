[package]
name = "stepsort"
version = "0.1.0"
edition = "2021"
publish = false

[dependencies]
rand = "*"
rayon = "1"
plotters = { version = "0.3", default-features = false, features = ["bitmap_backend", "bitmap_encoder", "line_series", "ab_glyph"] }

[dev-dependencies]
rand = "*"
