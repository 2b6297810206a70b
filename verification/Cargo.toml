[package]
name = "comrak"
version = "0.18.0"
edition = "2021"
publish = false

[dependencies]
arbitrary = { version = "1", features = ["derive"] }
entities = "1"
typed-arena = "2"
