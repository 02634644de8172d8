[package]
name = "concurrent-sharded-stack"
version = "0.2.1"
edition = "2021"

[dependencies]
crossbeam-epoch = "0.9"
crossbeam-utils = "0.8"
