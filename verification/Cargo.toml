[package]
name = "rustysd"
version = "0.1.0"
edition = "2021"
publish = false

[dependencies]
crossbeam = "=0.8.5"
libc = "=0.2.190"
threadpool = "=1.8.1"

[dependencies.nix]
version = "=0.31.3"
features = ["process", "signal"]
