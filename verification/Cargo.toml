[package]
name = "parity_scale_codec"
version = "0.1.0"
edition = "2021"
publish = false

[dependencies]
bitvec = { version = "0.20", default-features = false, features = ["alloc"] }
serde = { version = "1", features = ["derive"] }

[dev-dependencies]
bitvec = { version = "0.20", default-features = false, features = ["alloc"] }
