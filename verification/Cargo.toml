[package]
name = "derived_data"
version = "0.1.0"
edition = "2021"
publish = false

[dependencies]
anyhow = "1"
bytes = "1"
clap = "2"
futures = "0.3"
indexmap = "1"
rand = "0.7"
rand_xorshift = "0.2"
serde = { version = "1", features = ["derive"] }
serde_json = "1"
thiserror = "1"
