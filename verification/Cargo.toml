[package]
name = "strprox"
version = "0.1.0"
edition = "2021"
publish = false

[dependencies]
ptrie = "=0.7.2"
slab = "=0.4.12"
rand = "=0.8.8"
plotly = "*"
tracing = "*"
tracing-subscriber = "*"
