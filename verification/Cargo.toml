[package]
name = "flow"
version = "0.1.0"
edition = "2021"
publish = false

[dependencies]
pico-args = "*"
wayland-client = "*"
wayland-scanner = "*"
