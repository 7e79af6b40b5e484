[package]
name = "npucore"
version = "0.1.0"
edition = "2021"
publish = false

[dependencies]
bit_field = "*"
spin = "*"
lazy_static = "*"
virtio-drivers = "*"
bitflags = "*"
embedded-io = "*"
