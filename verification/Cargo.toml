[package]
name = "thelma"
version = "0.1.0"
edition = "2021"
publish = false

[dependencies]
rayon = "*"
serde_json = "*"
rand = "*"
tokio = { version = "*", features = ["rt-multi-thread", "macros", "time"] }
