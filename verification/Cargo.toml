[package]
name = "yrs"
version = "0.1.0"
edition = "2021"
publish = false

[dependencies]
lib0 = "=0.16.10"
