[package]
name = "scalargrad"
version = "0.1.0"
edition = "2021"

[dependencies]
plotly = "*"
rand = "0.8"
