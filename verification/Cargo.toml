[package]
name = "datastore"
version = "0.1.0"
edition = "2021"
publish = false

[dependencies]
futures = "0.1"
parking_lot = "0.12"
serde_json = "1"
tempfile = "3"
