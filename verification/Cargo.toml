[package]
name = "sann"
version = "0.1.0"
edition = "2021"
publish = false

[dependencies]
pathfinding = "*"
vec1 = "*"
rand = "0.7"
toml = "0.5"
geo = "*"
