[package]
name = "sentiment_counter"
version = "0.1.0"
edition = "2021"
publish = false

[dependencies]
aws-config = "*"
aws-sdk-s3 = "*"
lambda_http = "*"
rust-bert = "*"
serde = { version = "*", features = ["derive"] }
serde_json = "*"
serde_urlencoded = "*"
thiserror = "*"
tokio = { version = "*", features = ["macros", "rt-multi-thread", "sync"] }
tracing = "*"
tracing-subscriber = { version = "*", features = ["env-filter"] }
