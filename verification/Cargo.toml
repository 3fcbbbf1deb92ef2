[package]
name = "sysrag"
version = "0.1.0"
edition = "2021"
publish = false

[dependencies]
uuid = { version = "*", features = ["v4"] }
anyhow = "*"
tokio = { version = "*", features = ["full"] }
serde = { version = "*", features = ["derive"] }
serde_json = "*"
reqwest = { version = "*", default-features = false, features = ["json"] }
clap = { version = "*", features = ["derive"] }
colored = "*"
indicatif = "*"
aya = "*"
fastembed = "*"
