[package]
name = "ferrocene"
version = "0.1.0"
edition = "2021"
publish = false

[dependencies]
num-bigint = "0.4"
radix_fmt = "1"
itertools = "0.13"
thiserror = "1"
