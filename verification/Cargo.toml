[package]
name = "xcmp_queue"
version = "0.1.0"
edition = "2021"
publish = false

[dependencies]
parity-scale-codec = { version = "=3.7.5", default-features = false, features = ["std"] }
rand_chacha = { version = "=0.3.1", default-features = false }
log = "0.4"
frame-support = "*"
frame-system = "*"
sp-runtime = "*"
staging-xcm = "*"
