[package]
name = "delaunator"
version = "0.2.0"
edition = "2021"
publish = false

[dependencies]
asprim = "*"
num-traits = "0.2"
