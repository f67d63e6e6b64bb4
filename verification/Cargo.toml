[package]
name = "qtictac_ai"
version = "0.1.0"
edition = "2021"
publish = false

[dependencies]
smallvec = "1"
regex = "1"
lazy_static = "1"
colored = "2"
ansi-escapes = "*"
