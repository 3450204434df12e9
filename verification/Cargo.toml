[package]
name = "lsm_tree"
version = "0.1.0"
edition = "2021"
publish = false

[dependencies]
glommio = "*"
futures-lite = "*"

[dev-dependencies]
bincode = "1"
serde = "1"
