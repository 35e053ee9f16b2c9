[package]
name = "sirius"
version = "0.1.0"
edition = "2021"
publish = false

[dependencies]
sha2 = "=0.10.9"
kmpsearch = "=1.0.0"
tempdir = "=0.3.7"
argh = "=0.1.19"
