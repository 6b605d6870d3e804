[package]
name = "fip_rank"
version = "0.1.0"
edition = "2021"
publish = false

[dependencies]
anyhow = "*"
dialoguer = "*"
tabled = "*"

[dev-dependencies]
csv = "*"
