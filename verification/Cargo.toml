[package]
name = "declindex"
version = "0.1.0"
edition = "2021"
publish = false

[dependencies]
csv = "1"
syn = { version = "2", features = ["full"] }
walkdir = "2"
