[package]
name = "ncp_engine"
version = "0.1.0"
edition = "2021"
publish = false

[dependencies]
unicode-normalization = "=0.1.26"
unicode-segmentation = "=1.13.3"
rayon = "=1.12.0"
