[package]
name = "regalloc2"
version = "0.1.0"
edition = "2021"
publish = false

[dependencies]
smallvec = "1"
log = "0.4"
