[package]
name = "geom_2d"
version = "0.1.0"
edition = "2021"
publish = false

[dependencies]
rstar = "=0.8.4"
serde = { version = "=1.0.229", features = ["derive"] }
wkt = "=0.8.0"
