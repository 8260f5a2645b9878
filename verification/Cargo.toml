[package]
name = "css_parser"
version = "0.1.0"
edition = "2021"

[dependencies]
serde = "1"

[dev-dependencies]
nom = "7"
