[package]
name = "getdoc"
version = "0.1.0"
edition = "2021"
publish = false

[dependencies]
serde_json = "*"
serde = { version = "*", features = ["derive"] }
clap = { version = "*", features = ["derive"] }
chrono = "*"
home = "*"
syn = { version = "*", features = ["full"] }
quote = "*"
toml = "*"
