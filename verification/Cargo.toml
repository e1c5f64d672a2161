[package]
name = "bandwidth-proxy"
version = "0.1.0"
edition = "2021"
publish = false

[dependencies]
eframe = { version = "0.33", default-features = false, features = ["default_fonts", "glow", "x11"] }
serde = { version = "1", features = ["derive"] }
serde_json = "1"
tokio = { version = "1", features = ["io-util", "macros", "net", "rt-multi-thread", "sync", "time"] }
