[package]
name = "os_dev_specs"
version = "0.1.0"
edition = "2021"
publish = false

[dependencies]
anyhow = "=1.0.104"
clap = { version = "=3.2.25", features = ["derive"] }
notify = "=4.0.18"

[dev-dependencies]
regex = "1"
