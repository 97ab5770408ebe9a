[package]
name = "ddh"
version = "0.1.0"
edition = "2021"
publish = false

[dependencies]
rayon = "*"
clap = "*"
stacker = "*"
serde = "*"
serde_derive = "*"
serde_json = "*"
