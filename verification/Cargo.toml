[package]
name = "tf_idf_indexer"
version = "0.1.0"
edition = "2021"
publish = false

[dependencies]
xml-rs = "*"

[dev-dependencies]
serde_json = "*"
