[package]
name = "ahc001"
version = "0.1.0"
edition = "2021"
publish = false

[dependencies]
rand = "0.8"
rand_pcg = "0.3"
rand_chacha = "0.3"
proconio = "0.4"
serde = { version = "1", features = ["derive"] }
serde_json = "1"
