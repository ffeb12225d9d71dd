[package]
name = "trim-margin"
version = "0.1.0"
edition = "2021"
publish = false

[dev-dependencies]
galvanic-assert = "0.8"
