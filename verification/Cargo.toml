[package]
name = "chemtool"
version = "0.4.1"
edition = "2021"
publish = false

[dependencies]
getopts = "0.2"
