[package]
name = "carbonyl"
version = "0.1.0"
edition = "2021"
publish = false

[dependencies]
flate2 = "1"
unicode-segmentation = "1"
unicode-width = "0.1"
