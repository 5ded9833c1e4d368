[package]
name = "i2c_display_driver"
version = "0.1.0"
edition = "2021"
publish = false

[dependencies]
embedded-graphics = "0.8"
libc = "0.2"
