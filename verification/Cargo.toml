[package]
name = "usls"
version = "0.1.0"
edition = "2021"
publish = false

[dependencies]
image = { version = "*", default-features = false }
imageproc = { version = "*", default-features = false }
ndarray = "*"
rayon = "*"
anyhow = "1"
aksr = "*"
