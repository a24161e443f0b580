[package]
name = "descriptor_match"
version = "0.1.0"
edition = "2021"
publish = false

[dependencies]
cv = "=0.6.0"
image = "=0.23.14"
imageproc = "=0.22.0"
itertools = "=0.15.0"
open = "=5.4.5"
palette = "=0.7.7"
rayon = "=1.12.0"
space = { version = "=0.10.3", features = ["hamming-vec"] }
tempfile = "=3.27.0"
