[package]
name = "wasmos"
version = "0.1.0"
edition = "2021"
publish = false

[dependencies]
fatfs = "*"
libm = "0.2"
spin = "0.9"
bootloader_api = "0.11"
