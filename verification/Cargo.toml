[package]
name = "md_inc"
version = "0.1.0"
edition = "2021"
publish = false

[dependencies]
anyhow = "1"
glob = "0.3"
regex = "1"
serde = { version = "1", features = ["derive"] }
serde_derive = "1"
structopt = "0.3"
toml = "0.5"

[dev-dependencies]
nom = "5"
