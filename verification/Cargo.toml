[package]
name = "vectordb"
version = "0.1.0"
edition = "2021"
publish = false

[dependencies]
instant-distance = "0.6"
serde = { version = "1", features = ["derive"] }
ic-cdk = "*"
