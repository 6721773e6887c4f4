[package]
name = "palette_trap"
version = "0.1.0"
edition = "2021"
publish = false

[dependencies]
combination = "*"
palette = "*"
plumers = "*"
xflags = "*"
