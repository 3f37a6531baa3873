[package]
name = "symbios_audio"
version = "0.3.0"
edition = "2021"
publish = false

[dependencies]
log = "0.4"
rand = "0.9"
rand_chacha = "0.9"
serde = { version = "1", features = ["derive"] }
symbios-genetics = "*"
