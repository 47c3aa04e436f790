[package]
name = "recase"
version = "0.1.0"
edition = "2021"
publish = false

[dependencies]
aho-corasick = "*"
unicode-segmentation = "*"
utf8_slice = "*"
