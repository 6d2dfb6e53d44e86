[package]
name = "cmtest"
version = "0.1.0"
edition = "2021"
publish = false

[dependencies]
ar = "*"
object = { version = "*", features = ["write"] }
walkdir = "*"
