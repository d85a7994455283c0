[package]
name = "ra_project_model"
version = "0.1.0"
edition = "2021"
publish = false

[dependencies]
log = "0.4"
ra_syntax = "0.1.0"
relative-path = "0.4.0"
rustc-hash = "1"
serde = { version = "1", features = ["derive"] }
serde_json = "1"
