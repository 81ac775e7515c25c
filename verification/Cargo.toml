[package]
name = "quatre_con"
version = "0.1.0"
edition = "2021"
publish = false

[dependencies]
anyhow = "1"
clap = { version = "4", features = ["derive"] }
colored = "2"
rand = "0.8"
thiserror = "1"
