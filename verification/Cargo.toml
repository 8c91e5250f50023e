[package]
name = "sled_datastore"
version = "0.1.0"
edition = "2021"
publish = false

[dependencies]
indradb-lib = "=5.0.0"
serde_json = "=1.0.151"
sled = "=0.34.7"
uuid = { version = "=1.27.0", features = ["v1"] }
