[package]
name = "data_pile"
version = "0.1.0"
edition = "2021"
publish = false

[dependencies]
memmap2 = "0.9"

[dev-dependencies]
quickcheck = { version = "1", default-features = false }
