[package]
name = "gpui-notes"
version = "0.1.0"
edition = "2021"
publish = false

[dependencies]
chrono = { version = "0.4", default-features = false, features = ["clock", "std"] }
regex = "1"
pulldown-cmark = { version = "*", default-features = false }
unicode-segmentation = "1"
dirs = "*"
