[package]
name = "sim_core"
version = "0.1.0"
edition = "2021"
publish = false

[dependencies]
glam = "0.29"
ndarray = "0.16"
rand = "0.9"
rand_chacha = "0.9"
rand_distr = "0.5"
serde = { version = "1", features = ["derive"] }
toml = "0.8"
thiserror = "2"
