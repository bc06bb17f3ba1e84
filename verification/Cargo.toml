[package]
name = "quadtree"
version = "0.1.0"
edition = "2021"
publish = false

[dependencies]
ref_eq = "1"
bitflags = "1"
stdweb = "0.4"
