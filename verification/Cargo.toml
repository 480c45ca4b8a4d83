[package]
name = "lenstra"
version = "0.1.0"
edition = "2021"
publish = false

[dependencies]
rand = "0.8"
integer-sqrt = "0.1"
