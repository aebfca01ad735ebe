[package]
name = "treeport"
version = "0.1.0"
edition = "2021"
publish = false

[dependencies]
anyhow = "*"
clap = { version = "*", features = ["derive"] }
csv = "*"
indicatif = "*"
nonempty = { version = "*", features = ["serialize"] }
rayon = "*"
serde = { version = "*", features = ["derive"] }
toml = "*"
