[package]
name = "ray_tracing"
version = "0.1.0"
edition = "2021"
publish = false

[dependencies]
anyhow = "1"
clap = { version = "3", features = ["derive"] }
env_logger = "0.9"
float_eq = "1"
image = { version = "0.24", default-features = false, features = ["jpeg", "png"] }
itertools = "0.10"
log = "0.4"
nalgebra = "0.31"
rand = "0.8"
rayon = "1"
