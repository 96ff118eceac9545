[package]
name = "crs-core"
version = "0.1.0"
edition = "2021"
publish = false

[dependencies]
regex = "1"
shell-words = "1"
sha2 = "0.10"
hex = "0.4"
serde = { version = "1", features = ["derive"] }
serde_json = "1"
toml = "*"
dirs = "*"
thiserror = "*"
miette = "*"
redb = "*"
serde-saphyr = "*"

[dev-dependencies]
tempfile = "3"
