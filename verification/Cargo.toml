[package]
name = "c64_dither"
version = "0.1.0"
edition = "2021"
publish = false

[dependencies]
image = "0.24"
lazy_static = "1"
palette = "0.5"
rayon = "1"
simple-error = "0.2"
vecmath = "1"
