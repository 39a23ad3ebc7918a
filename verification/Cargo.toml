[package]
name = "rustini"
version = "0.1.0"
edition = "2021"
publish = false
