[package]
name = "paged_kv_cache"
version = "0.1.0"
edition = "2021"
publish = false

[dependencies]
axum = "0.7"
cudarc = { version = "*", default-features = false, features = ["std", "driver", "nvrtc", "dynamic-loading", "cuda-12060"] }
rand = "0.8"
serde = { version = "1", features = ["derive"] }
tokio = { version = "1", features = ["macros", "net", "rt-multi-thread", "sync", "time"] }
tower-http = { version = "0.5", features = ["cors", "fs"] }
