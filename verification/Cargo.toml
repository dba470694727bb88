[package]
name = "ances-tree"
version = "0.0.1"
edition = "2021"
publish = false

[dependencies]
pin-project = "=1.1.13"
tap = "=1.0.1"
tiptoe = { version = "=0.0.2", features = ["sync"] }
