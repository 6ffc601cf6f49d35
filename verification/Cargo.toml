[package]
name = "min_city"
version = "0.1.0"
edition = "2021"
publish = false

[dependencies]
petgraph = "*"
pheap = "*"
csv = "*"
serde = { version = "*", features = ["derive"] }
chrono = "*"
indicatif = "*"
