[package]
name = "hypergraph_rewrite"
version = "0.1.0"
edition = "2021"

[dependencies]
rand = "0.8"
plotters = "0.3"
