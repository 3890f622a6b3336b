[package]
name = "tobys_lib"
version = "0.1.0"
edition = "2021"
publish = false

[dependencies]
jiff = "=0.2.43"
itertools = "=0.15.0"
thiserror = "=2.0.21"
num-bigint = { version = "=0.5.1", features = ["rand_0_10"] }
num-traits = "=0.2.19"
rand = "=0.10.3"
