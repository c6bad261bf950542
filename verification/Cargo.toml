[package]
name = "rc_event_queue"
version = "0.1.0"
edition = "2021"
publish = false

[dependencies]
parking_lot = "0.12"
spin = "0.9"
array-init = "2"

[dev-dependencies]
rand = "0.8"
