[package]
name = "bounded_voronoi"
version = "0.1.0"
edition = "2021"
publish = false

[dependencies]
rand = "0.8"
plotters = { version = "0.3", default-features = false, features = ["svg_backend"] }
voronoice = "*"
