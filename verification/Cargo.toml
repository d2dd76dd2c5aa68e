[package]
name = "sweep"
version = "0.1.0"
edition = "2021"
publish = false

[dependencies]
crossbeam = "0.8"
dunce = "1"
regex = "1"
serde = { version = "1", features = ["derive"] }
serde_yaml = "0.9"
structopt = "0.3"
yansi = "0.5"
