[package]
name = "groth16_core"
version = "0.1.0"
edition = "2021"
publish = false

[dependencies]
ark-bn254 = "*"
ark-ec = "*"
ark-ff = "*"
ark-groth16 = "*"
ark-serialize = "*"
serde = { version = "*", features = ["derive"] }
serde_json = "*"

[dev-dependencies]
ark-relations = "*"
ark-std = "*"
