[package]
name = "quiz_engine"
version = "0.1.0"
edition = "2021"
publish = false

[dependencies]
anyhow = "*"
chrono = "*"
clap = { version = "*", features = ["derive"] }
clearscreen = "*"
colored = "*"
inquire = "*"
num-format = "*"
rand = "*"
serde = { version = "*", features = ["derive"] }
serde_yaml = "*"
sqlx = { version = "*", default-features = false, features = ["runtime-tokio", "sqlite", "chrono", "macros"] }
tokio = { version = "*", features = ["macros", "rt-multi-thread"] }
