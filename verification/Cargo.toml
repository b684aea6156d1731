[package]
name = "scirust"
version = "0.3.0"
edition = "2021"
publish = false

[dependencies]
rand = "0.8"
time = "0.1"
