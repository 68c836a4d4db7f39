[package]
name = "metastore"
version = "0.1.0"
edition = "2021"
publish = false

[dependencies]
async-trait = "0.1"
futures = "0.3"
sqlparser = "0.13"
tokio = { version = "1", features = ["time"] }
uuid = { version = "0.8", features = ["v4"] }
