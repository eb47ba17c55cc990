[package]
name = "raster_window"
version = "0.1.0"
edition = "2021"
publish = false

[dependencies]
anyhow = "1"
gdal = "*"
ndarray = "*"
rayon = "1"
shellexpand = "3"
