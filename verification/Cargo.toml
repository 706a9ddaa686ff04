[package]
name = "svg_layers"
version = "0.1.0"
edition = "2021"
publish = false

[dependencies]
skia-safe = { version = "*", default-features = false, features = ["svg", "textlayout"] }
