[package]
name = "pdfmerge"
version = "0.1.0"
edition = "2021"
publish = false

[dependencies]
base64 = "=0.23.1"
lopdf = { version = "=0.45.0", default-features = false }
serde = { version = "=1.0.229", features = ["derive"] }
lambda_http = "=1.3.1"
tokio = { version = "=1.53.2", features = ["macros", "rt-multi-thread"] }
tracing = "=0.1.44"
tracing-subscriber = "=0.3.23"
