[package]
name = "cb_text"
version = "0.1.0"
edition = "2021"
publish = false

[dependencies]
regex = "1"
unicode-segmentation = "1"
