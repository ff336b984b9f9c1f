[package]
name = "carmine"
version = "0.1.0"
edition = "2021"
publish = false

[dependencies]
url = "2"
encoding_rs = "0.8"
scraper = "0.22"
ego-tree = "0.10"
csscolorparser = "0.7"
cssparser = "0.34"
taffy = "0.7"
tiny-skia = "0.11"
ab_glyph = "0.2"
image = "0.25"
ureq = "2"
clap = { version = "4", features = ["derive"] }
boa_engine = "0.20"
