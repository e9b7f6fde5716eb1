[package]
name = "forge_vm"
version = "0.1.0"
edition = "2021"
publish = false

[dependencies]
osui = "=0.1.1"
