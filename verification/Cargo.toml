[package]
name = "jj_lib"
version = "0.1.0"
edition = "2021"
publish = false

[dependencies]
itertools = "0.14"
thiserror = "2"
