[package]
name = "overlayvid"
version = "0.1.0"
edition = "2021"
publish = false

[dependencies]
png = "*"
serde = { version = "*", features = ["derive"] }
serde_json = "*"
reqwest = { version = "*", default-features = false, features = ["blocking", "multipart"] }
rayon = "*"
subprocess = "*"
