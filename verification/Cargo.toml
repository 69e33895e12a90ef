[package]
name = "finlibs"
version = "0.1.0"
edition = "2021"
publish = false

[dependencies]
chrono = "0.4"
config = { version = "0.15", default-features = false, features = ["toml"] }
envy = "0.4"
image = { version = "0.25", default-features = false, features = ["ico"] }
lazy_static = "1"
path-clean = "1"
rayon = "1"
regex = "1"
rfd = { version = "0.15", default-features = false, features = ["xdg-portal", "tokio"] }
serde = { version = "1", features = ["derive"] }
serde_json = "1"
tokio-test = "0.4"
toml = "0.9"
yahoo_finance_api = "*"
