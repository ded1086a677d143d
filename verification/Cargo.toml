[package]
name = "zed_shell_marks"
version = "0.1.0"
edition = "2021"
publish = false

[dependencies]
itertools = "*"
serde = { version = "1", features = ["derive"] }
serde_json = "1"
dirs = "*"
parking_lot = "0.12"
