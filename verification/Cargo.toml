[package]
name = "holo_northbound"
version = "0.1.0"
edition = "2021"
publish = false

[dependencies]
phf = "=0.14.0"
tokio = { version = "=1.54.1", features = ["rt", "rt-multi-thread", "sync", "macros"] }
yang4 = "=0.1.0"
