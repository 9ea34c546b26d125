[package]
name = "screen_server"
version = "0.1.0"
edition = "2021"
publish = false

[dependencies]
screenshots = "0.7"
