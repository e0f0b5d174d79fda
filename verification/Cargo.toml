[package]
name = "forest"
version = "0.1.0"
edition = "2021"
publish = false

[dependencies]
cid = { version = "=0.11.3", features = ["serde"] }
serde = { version = "=1.0.229", features = ["derive"] }
serde_repr = "=0.1.21"
serde_tuple = "=1.1.3"
jsonrpc-v2 = { version = "=0.13.0", default-features = false, features = ["hyper-integration", "easy-errors"] }

[dev-dependencies]
hex = "=0.4.3"
