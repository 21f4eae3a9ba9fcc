[package]
name = "clarion"
version = "0.1.0"
edition = "2021"
publish = false

[dependencies]
ripemd = "=0.2.0"
