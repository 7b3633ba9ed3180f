[package]
name = "lau-probability-agents"
version = "0.1.0"
edition = "2021"
publish = false

[dependencies]
nalgebra = "0.33"
num-complex = "0.4"
serde = { version = "1", features = ["derive"] }
