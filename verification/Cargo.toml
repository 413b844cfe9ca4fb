[package]
name = "river_gateway"
version = "0.1.0"
edition = "2021"
publish = false

[dependencies]
sha2 = "0.10"
serde = { version = "1", features = ["derive"] }
serde_json = "1"
toml = "*"
anyhow = "1"
chrono = "0.4"
chrono-tz = "*"
ulid = "1"
jiff = "*"
regex = "1"
