[package]
name = "bluez_buffer"
version = "0.1.0"
edition = "2021"
publish = false

[dependencies]
nix = "0.28"
zbus = "3"
