[package]
name = "pagewal"
version = "0.1.0"
edition = "2021"
publish = false

[dependencies]
embedded-sdmmc = { version = "*", default-features = false }
allocator-api2 = { version = "*", default-features = false, features = ["alloc"] }
