[package]
name = "keystats"
version = "0.1.0"
edition = "2021"
publish = false

[dependencies]
fxhash = "0.2"
memmap2 = "0.9"
