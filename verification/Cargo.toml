[package]
name = "semantic_compiler"
version = "0.1.0"
edition = "2021"
publish = false

[dependencies]
blake3 = { version = "1", default-features = false }
serde = { version = "1", features = ["derive"] }
thiserror = "1"
log = "0.4"
num_cpus = "1"
page_size = "0.6"
