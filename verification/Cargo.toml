[package]
name = "mini-download-serve"
version = "0.1.0"
edition = "2021"
publish = false

[dependencies]
axum = { version = "0.8", features = ["macros"] }
bytes = "1"
chrono = "0.4"
clap = { version = "4", features = ["derive"] }
http-body = "1"
hyper = { version = "1", features = ["server", "http1"] }
hyper-util = { version = "0.1", features = ["service", "tokio"] }
libc = "0.2"
mime_guess = "2"
percent-encoding = "2"
tokio = { version = "1", features = ["full"] }
