[package]
name = "cargo_deny"
version = "0.1.0"
edition = "2021"
publish = false

[dependencies]
krates = "=0.2.0"
semver = "=0.9.0"
twox-hash = "=1.6.3"
serde = { version = "=1.0.229", features = ["derive"] }

[dev-dependencies]
serde_json = "=1.0.154"
