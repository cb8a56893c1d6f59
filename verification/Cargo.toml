[package]
name = "stlcg"
version = "0.1.0"
edition = "2021"
publish = false

[dependencies]
burn = { version = "=0.22.1", default-features = false, features = ["flex", "autodiff"] }
thiserror = "=2.0.21"
