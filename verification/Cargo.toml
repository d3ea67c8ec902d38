[package]
name = "cipher"
version = "0.4.0"
edition = "2021"
publish = false

[dependencies]
crypto-common = "0.1"
generic-array = "0.14"
inout = "0.1"
