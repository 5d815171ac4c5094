[package]
name = "certified_state"
version = "0.1.0"
edition = "2021"
publish = false

[dependencies]
async-trait = "0.1"
bcs = "0.1"
generic-array = "0.14"
serde = { version = "1", features = ["derive"] }
sha2 = "0.9"
