[package]
name = "component_translations"
version = "0.1.0"
edition = "2021"
publish = false

[dependencies]
regex = "=1.13.1"
pcre2 = "=0.2.11"
serde = { version = "=1.0.229", features = ["derive"] }
serde_json = "=1.0.154"
