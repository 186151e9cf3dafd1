[package]
name = "oware"
version = "0.1.0"
edition = "2021"
publish = false

[dependencies]
board-game = "*"
rand = "0.8"
