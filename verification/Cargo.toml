[package]
name = "fm-index"
version = "0.1.0"
edition = "2021"
publish = false

[dependencies]
vers-vecs = { version = "*", features = ["serde"] }
num-traits = "*"
serde = { version = "1", features = ["derive"] }

[dev-dependencies]
rand = "0.8"
