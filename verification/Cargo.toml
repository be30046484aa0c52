[package]
name = "workspace_core"
version = "0.1.0"
edition = "2021"
publish = false

[dependencies]
indexmap = "*"
smithay = { version = "*", default-features = false }
