[package]
name = "sicht"
version = "0.1.0"
edition = "2021"
publish = false

[dependencies]
slotmap = "1"
