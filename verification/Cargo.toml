[package]
name = "storysphere"
version = "0.1.0"
edition = "2021"
publish = false

[dependencies]
epub = "*"
serde = { version = "*", features = ["derive"] }

[dev-dependencies]
zip = "*"
