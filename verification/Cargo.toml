[package]
name = "super_metroid"
version = "0.1.0"
edition = "2021"
publish = false

[dependencies]
image = "*"
dot = "*"
serde = { version = "*", features = ["derive"] }
serde_json = "*"
structopt = "*"
regex = "*"
parse_int = "*"
