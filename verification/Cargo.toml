[package]
name = "restbl"
version = "0.1.0"
edition = "2021"
publish = false

[dependencies]
lexical-core = "=0.8.5"
serde = { version = "=1.0.229", features = ["derive"] }
thiserror-no-std = { version = "=2.0.2", features = ["std"] }
