[package]
name = "is25xp"
version = "0.1.0"
edition = "2021"
publish = false

[dependencies]
embedded-storage = "=0.2.0"
stm32l4xx-hal = { version = "=0.7.1", features = ["stm32l475"] }
