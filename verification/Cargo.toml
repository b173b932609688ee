[package]
name = "seg_rtree"
version = "0.1.0"
edition = "2021"
publish = false

[dependencies]
wkt = "*"

[dev-dependencies]
rand = "*"
