[package]
name = "sse_gateway"
version = "0.1.0"
edition = "2021"
publish = false

[dependencies]
anyhow = "*"
bb8 = "=0.9.1"
bb8-redis = "=0.26.0"
futures = "*"
http-api-problem = "=0.60.0"
log = "*"
serde = { version = "*", features = ["derive"] }
serde_json = "*"
simple_logger = "=5.2.0"
structopt = "=0.3.26"
tokio = { version = "=1.53.2", features = ["rt-multi-thread", "macros", "sync", "time"] }
warp = { version = "=0.4.3", features = ["server"] }
