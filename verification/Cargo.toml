[package]
name = "dl_labs"
version = "0.1.0"
edition = "2021"
publish = false

[dependencies]
candle-core = "*"
candle-nn = "*"
image = { version = "*", default-features = false, features = ["png"] }
imageproc = { version = "*", default-features = false }
nalgebra = "*"
prost = "*"
tract-onnx = "*"
