[package]
name = "serde_fressian"
version = "0.1.1"
edition = "2021"
publish = false

[dependencies]
serde = { version = "1", features = ["derive"] }
serde_bytes = "0.11"
byteorder = "1"
itertools = "0.10"
ordered-float = { version = "2", features = ["serde"] }
