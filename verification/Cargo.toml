[package]
name = "fly_into_the_maelstrom"
version = "0.1.0"
edition = "2021"
publish = false

[dependencies]
anyhow = "*"
serde = { version = "*", features = ["derive"] }
serde_json = "*"
serde_with = "*"
derive_more = { version = "*", features = ["display", "from"] }
