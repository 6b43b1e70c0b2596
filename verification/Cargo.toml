[package]
name = "protests"
version = "0.1.0"
edition = "2021"
publish = false

[dependencies]
fluent = "*"
intl-memoizer = "*"
unic-langid = "0.9"
axum = { version = "0.8", features = ["multipart"] }
axum-extra = { version = "0.10", features = ["cookie-signed"] }
askama = "0.14"
sqlx = { version = "0.8", default-features = false, features = ["postgres", "runtime-tokio", "macros", "derive", "time"] }
tokio = { version = "1", features = ["rt-multi-thread", "macros", "net", "fs", "io-util"] }
tower-http = { version = "0.6", features = ["fs"] }
config = { version = "0.15", default-features = false, features = ["toml"] }
serde = { version = "1", features = ["derive"] }
serde_json = "1"
serde_with = "3"
once_cell = "1"
uuid = { version = "1", features = ["v4"] }
time = { version = "0.3", features = ["macros", "parsing", "formatting", "serde", "serde-human-readable"] }
