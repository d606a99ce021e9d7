[package]
name = "magic_squares"
version = "0.1.0"
edition = "2021"
publish = false

[dependencies]
nohash = "=0.2.0"
petgraph = "=0.6.5"
primal = "=0.3.3"
rayon = "=1.12.0"
serde = { version = "=1.0.229", features = ["derive"] }
bincode = "=1.3.3"
graphviz-rust = "=0.9.9"
vf2 = "=1.0.1"
