[package]
name = "knead"
version = "0.1.0"
edition = "2021"
publish = false

[dependencies]
miette = { version = "7", default-features = false }
proc-macro2 = "1"
quote = "1"
venial = "0.6"
