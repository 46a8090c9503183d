[package]
name = "uiua"
version = "0.1.0"
edition = "2021"
publish = false

[dependencies]
ecow = { version = "0.2", features = ["serde"] }
tinyvec = { version = "1", features = ["alloc"] }
serde = { version = "1", features = ["derive"] }
serde_tuple = "0.5"
enum-iterator = "2"
urlencoding = "2"
