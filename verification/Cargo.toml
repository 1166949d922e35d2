[package]
name = "crushrs"
version = "0.1.0"
edition = "2021"
publish = false

[dependencies]
clap = { version = "*", features = ["derive"] }
env_logger = "*"
gif = "*"
log = "*"
nalgebra = "*"
parquet = { version = "*", default-features = false, features = ["snap"] }
rayon = "*"
serde = { version = "*", features = ["derive"] }
toml = "*"
