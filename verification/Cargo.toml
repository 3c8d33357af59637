[package]
name = "modcat"
version = "0.1.0"
edition = "2021"
publish = false

[dependencies]
colored = "*"
indicatif = "*"
reqwest = { version = "*", default-features = false, features = ["blocking", "json", "rustls-tls"] }
rustyline = "*"
serde = { version = "*", features = ["derive"] }
serde_yaml = "*"
