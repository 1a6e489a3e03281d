[package]
name = "ramhorns"
version = "0.1.0"
edition = "2021"

[dependencies]
arrayvec = "=0.7.8"
