[package]
name = "discord_drive"
version = "0.1.0"
edition = "2021"
publish = false

[dependencies]
confy = "*"
firestore = "*"
futures = "*"
reqwest = "*"
serde = { version = "*", features = ["derive"] }
serenity = "*"
structopt = "*"
tokio = { version = "*", features = ["full"] }
