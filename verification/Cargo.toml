[package]
name = "igneous_linearizer"
version = "0.1.0"
edition = "2021"
publish = false

[dependencies]
clap = { version = "4", features = ["derive"] }
gray_matter = "0.2"
petgraph = "0.6"
regex = "1"
