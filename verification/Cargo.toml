[package]
name = "abvt"
version = "0.1.0"
edition = "2021"
publish = false

[dependencies]
rand = "=0.10.3"
tokio = { version = "=1.53.2", features = ["rt-multi-thread", "macros", "time"] }
warp = { version = "=0.4.3", features = ["server", "websocket"] }
futures = "=0.3.34"
log = "=0.4.34"
pretty_env_logger = "=0.5.0"
