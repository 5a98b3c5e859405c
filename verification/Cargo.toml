[package]
name = "odin_palace"
version = "0.1.0"
edition = "2021"
publish = false

[dependencies]
chrono = "0.4"
encoding_rs = "0.8"
indexmap = "2"
rust_decimal = "1"
clap = { version = "4", features = ["derive"] }
