[package]
name = "infinity_loop"
version = "0.1.0"
edition = "2021"
publish = false

[dependencies]
smallbitset = "=0.7.1"
fastrand = "=1.9.0"
hashbrown = "=0.17.1"
glam = "=0.34.2"
serde = { version = "=1.0.229", features = ["derive"] }
