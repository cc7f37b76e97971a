[package]
name = "static_linker"
version = "0.1.0"
edition = "2021"
publish = false

[dependencies]
byteorder = "1"
object = { version = "*", default-features = false, features = ["read", "std", "write"] }
