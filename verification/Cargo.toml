[package]
name = "ryzr"
version = "0.1.0"
edition = "2021"
publish = false

[dependencies]
cranelift-entity = "=0.130.2"
