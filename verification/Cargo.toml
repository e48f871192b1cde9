[package]
name = "yake"
version = "0.1.0"
edition = "2021"
publish = false

[dependencies]
unicode-segmentation = "=1.13.3"
natural = "=0.5.0"
streaming-stats = "*"
