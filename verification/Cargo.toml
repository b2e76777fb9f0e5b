[package]
name = "roadnet"
version = "0.1.0"
edition = "2021"
publish = false

[dependencies]
rusqlite = { version = "*", features = ["bundled"] }
mlua = { version = "*", features = ["lua54", "vendored"] }
