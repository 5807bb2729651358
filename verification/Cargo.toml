[package]
name = "mm"
version = "0.1.0"
edition = "2021"
publish = false

[dependencies]
indexmap = { version = "2", features = ["serde"] }
serde = { version = "1", features = ["derive"] }
serde_json = "1"
clap = { version = "4", features = ["derive", "cargo"] }
objc = "0.2"
objc-foundation = "0.1"
cocoa = "*"
core-foundation = "*"
core-graphics = "*"
