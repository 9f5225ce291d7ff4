[package]
name = "wakerset"
version = "0.1.0"
edition = "2021"
publish = false

[dependencies]
arrayvec = { version = "0.7", default-features = false }

[dev-dependencies]
tokio = { version = "1", default-features = false, features = ["rt-multi-thread"] }
