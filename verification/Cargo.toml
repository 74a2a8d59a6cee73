[package]
name = "ubachain"
version = "0.1.0"
edition = "2021"
publish = false

[dependencies]
sha2 = "*"
hex = "*"
serde = { version = "*", features = ["derive"] }
serde_json = "*"
thiserror = "*"
clap = { version = "*", features = ["derive"] }
actix-web = "*"
tokio = { version = "*", features = ["macros", "rt-multi-thread"] }
