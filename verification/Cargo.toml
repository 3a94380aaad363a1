[package]
name = "tournament_core"
version = "0.1.0"
edition = "2021"
publish = false

[dependencies]
rand = "=0.9.5"
iced = { version = "=0.14.0", default-features = false, features = ["x11", "tiny-skia", "thread-pool"] }
