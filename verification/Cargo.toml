[package]
name = "kindness"
version = "0.5.0"
edition = "2021"
publish = false

[dependencies]
rand = "0.8"
hashbrown = "0.15"
allocator-api2 = "0.2"
