[package]
name = "fulliautomatisk"
version = "0.2.0"
edition = "2021"
publish = false

[dependencies]
regex = "*"
uuid = { version = "*", features = ["v4"] }
rusqlite = { version = "*", features = ["bundled"] }
notify = "*"
reqwest = { version = "*", default-features = false, features = ["blocking", "rustls-tls"] }
clap = "*"
signal = "*"
time = "*"
