[package]
name = "autumn_core"
version = "0.1.0"
edition = "2021"
publish = false

[dependencies]
anyhow = "1"
thiserror = "1"
proc-macro2 = "1"
syn = { version = "2", features = ["full"] }
