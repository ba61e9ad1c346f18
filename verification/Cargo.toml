[package]
name = "primality"
version = "0.1.0"
edition = "2021"
publish = false

[dependencies]
num-bigint = { version = "0.3", features = ["rand"] }
rand = "0.7"
