[package]
name = "wb_slide"
version = "0.9.0"
edition = "2021"
publish = false

[dependencies]
comrak = { version = "=0.44.0", default-features = false }
base64 = "=0.22.1"
mime_guess = "=2.0.5"
serde_json = "=1.0.154"
axum = "=0.8.9"
tokio = { version = "=1.54.1", features = ["macros", "rt-multi-thread", "net", "fs"] }
clap = { version = "=4.6.7", features = ["derive"] }
open = "=5.4.5"
reqwest = { version = "=0.12.28", default-features = false, features = ["rustls-tls"] }
rust-embed = { version = "=8.13.0", features = ["interpolate-folder-path"] }
