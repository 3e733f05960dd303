[package]
name = "cozo_hnsw"
version = "0.1.0"
edition = "2021"
publish = false

[dependencies]
priority-queue = "2"
rand = "0.8"
rustc-hash = "2"
ordered-float = "4"
rmp-serde = "1"
serde = { version = "1", features = ["derive"] }
smartstring = { version = "1", features = ["serde"] }
itertools = "0.13"
log = "0.4"
miette = "7"
rayon = "1"
