[package]
name = "os_rust"
version = "0.1.0"
edition = "2021"
publish = false

[dependencies]
spin = "0.9"
x86_64 = { version = "0.15", default-features = false, features = ["instructions"] }
bootloader = { version = "0.9", features = ["recursive_page_table"] }
lazy_static = "1"
