[package]
name = "quackos"
version = "0.1.0"
edition = "2021"
publish = false

[dependencies]
hashbrown = "0.14"
spin = "0.9"
virtio-drivers = "0.7"
xmas-elf = "0.9"
