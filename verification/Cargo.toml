[package]
name = "bicmath"
version = "0.1.0"
edition = "2021"
publish = false

[dependencies]
num-bigint = "0.4"
num-rational = "0.4"
num-traits = "0.2"
libm = "0.2"
serde_json = "1"
