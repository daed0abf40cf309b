[package]
name = "oh_no"
version = "0.1.0"
edition = "2021"
publish = false

[dependencies]
bevy = { version = "0.11", default-features = false }
rune = "0.13"
tokio = { version = "1", features = ["macros", "rt-multi-thread"] }
