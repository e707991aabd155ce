[package]
name = "spinel_vm"
version = "0.0.1"
edition = "2021"
publish = false

[dependencies]
num-bigint = "=0.4.8"
