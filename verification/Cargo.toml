[package]
name = "account_demo"
version = "0.1.0"
edition = "2021"
publish = false

[dependencies]
chrono = { version = "*", default-features = false, features = ["clock"] }
sqlx = { version = "*", default-features = false, features = ["postgres", "runtime-tokio", "chrono"] }
tokio = { version = "*", features = ["rt-multi-thread", "macros", "time"] }
tracing = "*"
tracing-subscriber = "*"
dotenv = "*"
uuid = { version = "*", features = ["v4"] }
