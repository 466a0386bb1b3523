[package]
name = "hex_window"
version = "0.1.0"
edition = "2021"

[dependencies]
minifb = "*"
