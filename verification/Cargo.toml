[package]
name = "mapq_pipeline"
version = "0.1.0"
edition = "2021"
publish = false

[dependencies]
intervaltree = "0.2"
crossbeam = "0.8"
rayon = "1"
clap = "4"
rust-htslib = { version = "*", default-features = false }
