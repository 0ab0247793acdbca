[package]
name = "dms_node"
version = "0.1.0"
edition = "2021"
publish = false

[dependencies]
prost = "0.13"
sha2 = "0.10"
tokio = { version = "1", features = ["macros", "rt", "sync", "time"] }
tonic = { version = "0.12", default-features = false }
