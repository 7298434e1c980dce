[package]
name = "fasttiles"
version = "0.1.0"
edition = "2021"
publish = false

[dependencies]
fastanvil = { version = "*", default-features = false }
fastnbt = "*"

[dev-dependencies]
flate2 = "*"
