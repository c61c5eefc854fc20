[package]
name = "flexlint"
version = "0.1.0"
edition = "2021"
publish = false

[dependencies]
regex = "*"
glob = "*"
toml = "*"
serde = { version = "*", features = ["derive"] }
anyhow = "*"
structopt = "*"
term = "*"
colored = "*"
