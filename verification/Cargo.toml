[package]
name = "blog"
version = "0.1.0"
edition = "2021"
publish = false

[dependencies]
askama = "*"
axum = "*"
chrono = "*"
mime_guess = "*"
pulldown-cmark = "*"
serde = { version = "*", features = ["derive"] }
serde_json = "*"
syntect = "*"
tokio = { version = "*", features = ["macros", "rt-multi-thread", "net", "signal"] }
