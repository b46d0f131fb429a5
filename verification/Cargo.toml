[package]
name = "mfrc522_driver"
version = "0.1.0"
edition = "2021"
publish = false

[dependencies]
embedded-hal = "1.0"
embassy-time = "0.3"
heapless = "0.8"
log = "0.4"
