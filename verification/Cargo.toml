[package]
name = "eyvara"
version = "0.1.0"
edition = "2021"
publish = false

[dependencies]
sha3 = "0.10"
subtle = "2"
rand = "0.8"
zeroize = "1"
serde = { version = "1", features = ["derive"] }

[dev-dependencies]
rand_chacha = "0.3"
