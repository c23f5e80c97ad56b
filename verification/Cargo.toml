[package]
name = "rrtt"
version = "0.1.0"
edition = "2021"
publish = false

[dependencies]
cfg-if = "=1.0.5"
konst = "=0.3.17"
memoffset = "=0.9.1"
