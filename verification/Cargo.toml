[package]
name = "scylla_migrate"
version = "0.1.0"
edition = "2021"
publish = false

[dependencies]
sha2 = "*"
anyhow = "*"
scylla = "*"
tokio = { version = "*", features = ["full"] }
clap = { version = "*", features = ["derive"] }
time = { version = "*", features = ["formatting"] }
