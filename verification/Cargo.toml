[package]
name = "arkstore"
version = "0.1.0"
edition = "2021"
publish = false

[dev-dependencies]
varuint = "=0.7.1"
