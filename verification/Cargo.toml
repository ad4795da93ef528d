[package]
name = "commitlog"
version = "0.1.0"
edition = "2021"
publish = false

[dependencies]
actix-web = "*"
memmap2 = "*"
serde = { version = "*", features = ["derive"] }
