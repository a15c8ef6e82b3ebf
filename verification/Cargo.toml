[package]
name = "dcsjsonrpc"
version = "0.1.0"
edition = "2021"
publish = false

[dependencies]
heck = "0.3"

[dev-dependencies]
serde_json = "1.0"
