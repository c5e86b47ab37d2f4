[package]
name = "stamped"
version = "0.1.0"
edition = "2021"
publish = false

[dependencies]
revord = "*"
