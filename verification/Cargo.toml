[package]
name = "syslua-lib"
version = "0.1.0"
edition = "2021"
publish = false

[dependencies]
sha2 = "0.10"
hex = "0.4"
serde = { version = "1", features = ["derive"] }
serde_json = "1"
petgraph = "0.6"

[dev-dependencies]
tempfile = "3"
