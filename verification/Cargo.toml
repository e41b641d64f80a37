[package]
name = "htmlreader"
version = "0.1.0"
edition = "2021"
publish = false

[dependencies]
dom_query = "*"
serde_json = "1"
