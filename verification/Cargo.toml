[package]
name = "drivechain_bridge"
version = "0.1.0"
edition = "2021"
publish = false

[dependencies]
bitcoin = "0.29"
hex = "0.4"
