[package]
name = "minilsof"
version = "0.1.0"
edition = "2021"
publish = false

[dependencies]
glob = "0.3"
thiserror = "1"
tokio = { version = "1", features = ["rt", "rt-multi-thread", "macros"] }
