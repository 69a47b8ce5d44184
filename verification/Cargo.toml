[package]
name = "mate_selection"
version = "0.1.0"
edition = "2021"
publish = false

[dependencies]
rand = "=0.10.3"
stochastic_universal_sampling = "=1.1.3"
serde = { version = "=1.0.229", features = ["derive"] }
