[package]
name = "predator_prey"
version = "0.1.0"
edition = "2021"
publish = false

[dependencies]
serde = { version = "=1.0.229", features = ["derive"] }
serde_json = "=1.0.154"
hyper = "=0.12.36"
futures = "=0.1.31"
