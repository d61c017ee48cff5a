[package]
name = "sneaky"
version = "0.1.0"
edition = "2021"
publish = false

[dependencies]
goblin = "=0.8.2"
hound = "=3.5.1"
image = { version = "=0.24.9", default-features = false, features = ["png", "jpeg"] }
inquire = "=0.7.5"
rand = "=0.8.8"
rand_chacha = "=0.3.1"
scroll = "=0.12.0"
