[package]
name = "graphics_buffer"
version = "0.1.0"
edition = "2021"
publish = false

[dependencies]
image = "=0.23.14"
bit-vec = "=0.10.1"
png = "=0.16.8"
piston2d-graphics = { version = "=0.45.0", features = ["glyph_cache_rusttype"] }
piston-texture = "=0.9.0"
rusttype = "=0.9.3"
