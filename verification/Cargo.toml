[package]
name = "flatland"
version = "0.1.0"
edition = "2021"
publish = false

[dependencies]
rand = "0.8"
serde = { version = "1", features = ["derive"] }
serde_json = "1"
image = "0.24"
palette = "0.7"
nalgebra = "0.32"
rayon = "1"
statistical = "1"
ordered-float = "4"
