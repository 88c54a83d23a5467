[package]
name = "ip2country"
version = "0.1.0"
edition = "2021"
publish = false

[dependencies]
ascii = "1"
thiserror = "1"
log = "0.4"
pretty_env_logger = "0.5"
tokio = { version = "1", features = ["rt-multi-thread", "macros", "net"] }
hyper = { version = "1", features = ["http1", "server"] }
hyper-util = { version = "0.1", features = ["tokio"] }
http-body-util = "0.1"
