[package]
name = "metanoid_procgen"
version = "0.1.0"
edition = "2021"
publish = false

[dependencies]
rand = "0.9"
rand_chacha = "0.9"
xxhash-rust = { version = "0.8", features = ["xxh3"] }
noiz = "*"
bevy_math = "*"
