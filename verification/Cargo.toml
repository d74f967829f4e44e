[package]
name = "oxcdf"
version = "0.1.0"
edition = "2021"
publish = false

[dependencies]
flate2 = "=1.1.10"
lz4_flex = "=0.11.6"
ndarray = "=0.16.1"
object_store = { version = "0.12", default-features = false }
zstd = "=0.13.4"
