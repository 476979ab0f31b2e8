[package]
name = "simd_mash"
version = "0.1.0"
edition = "2021"
publish = false

[dependencies]
packed-seq = "1.0"
simd-minimizers = "=1.0.0"

[dev-dependencies]
rand = "0.9"
