[package]
name = "geoq"
version = "0.1.0"
edition = "2021"
publish = false

[dependencies]
geojson = "=0.24.2"
flatgeobuf = { version = "=6.0.1", default-features = false }
flatbuffers = "=24.12.23"
num_cpus = "=1.17.0"
