[package]
name = "cachemap3"
version = "0.1.0"
edition = "2021"
publish = false

[dependencies]
hashbrown = { version = "0.14", features = ["raw"] }
lock_api = "0.4"
parking_lot = "0.12"
parking_lot_core = "0.9"
