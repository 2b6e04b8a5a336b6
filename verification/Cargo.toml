[package]
name = "dataplane"
version = "0.1.0"
edition = "2021"
publish = false

[dependencies]
etherparse = "0.19"
redb = "3"
tracing = "0.1"
