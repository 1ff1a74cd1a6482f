[package]
name = "grph"
version = "0.1.0"
edition = "2021"
publish = false

[dependencies]
priq = "=0.1.6"
permute = "=0.2.1"
thiserror = "=2.0.21"
either = "=1.19.0"
