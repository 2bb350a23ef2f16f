[package]
name = "rts"
version = "0.1.0"
edition = "2021"
publish = false

[dependencies]
serde = { version = "1", features = ["derive"] }
toml = "0.5"
ron = "0.6"
building-blocks = { version = "0.7", default-features = false }
