[package]
name = "digmake"
version = "0.1.0"
edition = "2021"
publish = false

[dependencies]
serde = { version = "1", features = ["derive"] }
thiserror = "1"
hex = "0.4"
md5 = "0.7"
uuid = "0.8"

[dev-dependencies]
nom = "7"
