[package]
name = "destructuring"
version = "0.1.0"
edition = "2021"
publish = false

[dependencies]
swc_common = "=14.0.4"
