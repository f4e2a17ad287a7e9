[package]
name = "r2048_ai"
version = "0.1.0"
edition = "2021"
publish = false

[dependencies]
rand = "0.8"
clap = { version = "4", features = ["derive"] }
termcolor = "1"
clearscreen = "*"
lazy_static = "1"
static_assertions = "1"
