[package]
name = "seli_vector_db"
version = "0.1.0"
edition = "2021"
publish = false

[dependencies]
rand = "*"
wide = "*"
thiserror = "*"
anyhow = "*"
