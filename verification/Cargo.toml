[package]
name = "cost_rollup"
version = "0.1.0"
edition = "2021"
publish = false

[dependencies]
calamine = "=0.37.0"
charts-rs = { version = "=0.3.28", features = ["image-encoder"] }
