[package]
name = "skely"
version = "0.1.0"
edition = "2021"
publish = false

[dependencies]
anyhow = "*"
clap = { version = "*", features = ["derive"] }
clap_complete = "*"
colored = "*"
home = "*"
itertools = "*"
serde = { version = "*", features = ["derive"] }
toml = "*"
