[package]
name = "authstore"
version = "0.1.0"
edition = "2021"
publish = false

[dependencies]
anyhow = "=1.0.104"
jmt = { version = "=0.12.0", features = ["mocks"] }
sha2 = "0.10"
tokio = { version = "=1.53.2", features = ["sync"] }
