[package]
name = "boba"
version = "0.1.0"
edition = "2021"
publish = false

[dependencies]
indexmap = "2"
hashbrown = "*"
glam = "*"
thiserror = "*"
