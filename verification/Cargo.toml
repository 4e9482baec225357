[package]
name = "quicksilver"
version = "0.4.0"
edition = "2021"
publish = false

[dependencies]
serde = { version = "1", features = ["derive"] }
mint = "0.5"
rand = "0.7"
bytemuck = "1"
golem = "0.1"
elefont = "0.1"
