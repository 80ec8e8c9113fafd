[package]
name = "ghg"
version = "0.1.0"
edition = "2021"
publish = false

[dependencies]
async-channel = "=2.5.0"
futures = "=0.3.34"
ndarray = "=0.15.6"
itertools = "=0.10.5"
shapefile = { version = "=0.9.0", features = ["geo-types"] }
geo = "=0.18.0"
geo-rasterize = "=0.1.2"
euclid = "=0.22.14"
image = { version = "=0.25.10", default-features = false, features = ["png"] }
netcdf = "=0.12.1"
