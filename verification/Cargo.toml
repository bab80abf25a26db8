[package]
name = "module_updater"
version = "0.1.0"
edition = "2021"
publish = false

[dependencies]
anyhow = "=1.0.104"
clap = { version = "=4.5.61", features = ["derive"] }
postcard = "=1.1.3"
ring = "=0.17.14"
serde = { version = "*", features = ["derive"] }
serialport = { version = "=4.10.1", default-features = false }
