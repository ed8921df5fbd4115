[package]
name = "sycamore_mac"
version = "0.1.0"
edition = "2021"
publish = false

[dependencies]
cacao = "=0.3.2"
objc = "=0.2.7"
sycamore = "=0.5.2"
