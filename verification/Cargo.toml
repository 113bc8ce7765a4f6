[package]
name = "phragmen_tracer"
version = "0.1.0"
edition = "2021"
publish = false

[dependencies]
actix-web = "*"
anyhow = "*"
clap = { version = "*", features = ["derive"] }
serde = { version = "*", features = ["derive"] }
serde_json = "*"
sp-arithmetic = "*"
