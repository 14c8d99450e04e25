[package]
name = "persisted_hashmap"
version = "0.1.0"
edition = "2021"
publish = false

[dependencies]
aligned-vec = { version = "0.6", default-features = false }
ph = { version = "0.11", default-features = false }
zerocopy = { version = "0.8", default-features = false }

[dev-dependencies]
rand = { version = "0.10", default-features = false, features = ["std_rng"] }
