[package]
name = "transit_stops"
version = "0.1.0"
edition = "2021"

[dependencies]
async-trait = "0.1"
failure = "0.1"
futures = "0.3"
serde = { version = "1", features = ["derive"] }
serde_json = "1"
