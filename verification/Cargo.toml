[package]
name = "babel_filter"
version = "0.1.0"
edition = "2021"
publish = false

[dependencies]
serde_json = { version = "*", features = ["preserve_order"] }
flate2 = "*"
clap = { version = "*", features = ["derive"] }
