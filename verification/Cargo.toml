[package]
name = "oktree"
version = "0.5.0"
edition = "2021"
publish = false

[dependencies]
smallvec = "1"
heapless = "0.8"
num = "0.4"
bevy = { version = "0.14", default-features = false }

[dev-dependencies]
rand = "0.8"
