[package]
name = "neck_sim"
version = "0.1.0"
edition = "2021"
publish = false

[dependencies]
smallvec = "1"
image = { version = "0.24", default-features = false, features = ["png"] }
