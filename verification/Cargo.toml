[package]
name = "journal"
version = "0.1.0"
edition = "2021"
publish = false

[dependencies]
anyhow = "*"
aws-config = "*"
aws-sdk-s3 = "*"
clap = { version = "*", features = ["derive"] }
crossterm = "*"
data-encoding = "*"
directories = "*"
inquire = "*"
regex = "*"
ring = "*"
rustyline = "*"
serde = { version = "*", features = ["derive"] }
serde_json = "*"
toml = "*"
zip = "*"
