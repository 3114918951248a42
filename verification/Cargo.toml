[package]
name = "hello_egui"
version = "0.1.0"
edition = "2021"
publish = false

[dependencies]
matchit = "0.8"
