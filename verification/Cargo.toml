[package]
name = "coolos"
version = "0.1.0"
edition = "2021"
publish = false

[dependencies]
font8x8 = { version = "=0.3.1", default-features = false, features = ["unicode"] }
pc-keyboard = "*"
raw-cpuid = "*"
x86_64 = "=0.15.5"
spin = "=0.9.9"
lazy_static = "=1.5.1"
bootloader_api = "=0.11.17"

[dev-dependencies]
fatfs = "=0.3.6"
