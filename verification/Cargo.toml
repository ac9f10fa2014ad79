[package]
name = "rbonsai"
version = "0.1.0"
edition = "2021"
publish = false

[dependencies]
rand = "0.8"
crossterm = "0.27"
clap = { version = "4", features = ["derive"] }
