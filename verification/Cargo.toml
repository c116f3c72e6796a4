[package]
name = "candy_works"
version = "0.1.0"
edition = "2021"
publish = false

[dependencies]
rustyline = "*"
