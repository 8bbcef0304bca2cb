[package]
name = "tika_magic"
version = "0.1.0"
edition = "2021"
publish = false

[dependencies]
regex = "1"
hex = "0.4"
zip = "*"
ole = "*"
clap = "4"
serde = { version = "1", features = ["derive"] }
quick-xml = { version = "*", features = ["serialize"] }
