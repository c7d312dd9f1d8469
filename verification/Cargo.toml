[package]
name = "grovedb"
version = "0.1.0"
edition = "2021"
publish = false

[dependencies]
rs_merkle = "1"
bincode = "1"
