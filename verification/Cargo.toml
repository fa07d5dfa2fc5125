[package]
name = "private_token_client"
version = "0.1.0"
edition = "2021"
publish = false

[dependencies]
sha2 = "0.10"
rand = "0.8"
clap = { version = "4", features = ["derive"] }
anyhow = "1"
dotenv = "0.15"

[dev-dependencies]
hex = "0.4"
