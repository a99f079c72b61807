[package]
name = "duration_flex"
version = "0.1.0"
edition = "2021"
publish = false

[dependencies]
chrono = { version = "=0.4.45", default-features = false, features = ["std"] }
clap = { version = "=4.6.7", default-features = false, features = ["std", "string"] }
serde = { version = "=1.0.229", default-features = false, features = ["std"] }
