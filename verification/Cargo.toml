[package]
name = "replicon_lockstep"
version = "0.1.0"
edition = "2021"
publish = false

[dependencies]
postcard = { version = "1", default-features = false, features = ["alloc"] }
serde = { version = "1", default-features = false, features = ["derive", "alloc"] }
