[package]
name = "bundled_provides"
version = "0.1.0"
edition = "2021"
publish = false

[dependencies]
serde = "1"
serde_derive = "1"
structopt = "0.3"
toml = "*"
