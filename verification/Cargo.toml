[package]
name = "small_world_model"
version = "0.1.0"
edition = "2021"
publish = false

[dependencies]
image = "*"
nalgebra = "*"
netcdf3 = "*"
num-traits = "*"
rayon = "*"
webp = "*"
