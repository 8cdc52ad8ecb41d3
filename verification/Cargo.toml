[package]
name = "cli"
version = "0.1.0"
edition = "2021"
publish = false

[dependencies]
indextree = "4"
yaml-rust = "0.4"
