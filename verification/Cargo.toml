[package]
name = "zhtta"
version = "0.5.0"
edition = "2021"
publish = false

[dependencies]
getopts = "0.2"
