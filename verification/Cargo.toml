[package]
name = "rand-kernel"
version = "0.1.0"
edition = "2021"
publish = false

[dependencies]
bootloader_api = "0.11"
spin = "*"
x86_64 = { version = "*", default-features = false, features = ["instructions"] }
uart_16550 = "*"
