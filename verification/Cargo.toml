[package]
name = "gc_wal"
version = "0.1.0"
edition = "2021"
publish = false

[dependencies]
prost = "*"
prost-types = "*"
serde = { version = "1", features = ["derive"] }
k8s-openapi = { version = "*", features = ["latest"] }
