[package]
name = "ortex"
version = "0.1.0"
edition = "2021"
publish = false

[dependencies]
ort = { version = "=2.0.0-rc.15", default-features = false, features = ["load-dynamic", "cuda"] }
rustler = "=0.29.1"
