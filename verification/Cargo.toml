[package]
name = "pokerbot"
version = "0.1.0"
edition = "2021"
publish = false

[dependencies]
indexmap = "2"
itertools = "0.14"
rand = "0.9"
rayon = "1"
tokio = { version = "1", features = ["sync"] }
