[package]
name = "lau_graph_theory"
version = "0.1.0"
edition = "2021"
publish = false

[dependencies]
nalgebra = "0.33"
rand = "0.9"
serde = { version = "1", features = ["derive"] }
