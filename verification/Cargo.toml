[package]
name = "report_builder"
version = "0.1.0"
edition = "2021"
publish = false

[dependencies]
chrono = "0.4"
itertools-num = "0.1"
maud = "*"
plotly = "*"
rand = "0.8"
