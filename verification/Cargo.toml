[package]
name = "echo"
version = "0.2.0"
edition = "2021"
publish = false

[dependencies]
crossbeam = "*"
crossbeam-utils = "*"
hdrhistogram = { version = "*", default-features = false }
libc = "*"
numpy = "*"
parking_lot = "*"
pyo3 = { version = "*", features = ["abi3-py310", "extension-module"] }
tokio = { version = "*", features = ["rt-multi-thread", "net", "io-util", "sync", "macros", "time"] }

[dev-dependencies]
tempfile = "*"
