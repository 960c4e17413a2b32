[package]
name = "stegno"
version = "0.1.0"
edition = "2021"

[dependencies]
clap = "2.33"
itertools = "0.13"

[dev-dependencies]
rand = "0.8"
