[package]
name = "concordium_node"
version = "0.1.0"
edition = "2021"
publish = false

[dependencies]
ring = "*"
chrono = "*"
circular-queue = "*"
ctrlc = { version = "*", features = ["termination"] }
