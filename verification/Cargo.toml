[package]
name = "const-duration-macro"
version = "0.1.0"
edition = "2021"
publish = false

[dev-dependencies]
humantime = "2"
