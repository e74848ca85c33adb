[package]
name = "graphina"
version = "0.1.0"
edition = "2021"
publish = false

[dependencies]
rand = "0.9"
petgraph = "0.8"
serde = { version = "1", features = ["derive"] }
serde_json = "1"
bincode = { version = "2", features = ["serde"] }
ordered-float = "5"
rayon = "1"
rustc-hash = "2"
sprs = { version = "0.11", default-features = false }
plotters = { version = "0.3", default-features = false, features = ["svg_backend", "bitmap_backend", "bitmap_encoder"] }
