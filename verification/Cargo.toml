[package]
name = "cfip"
version = "0.1.0"
edition = "2021"
publish = false

[dependencies]
ipnetwork = "*"
rand = "*"
anyhow = "*"
clap = { version = "*", features = ["derive"] }
colored = "*"
comfy-table = "*"
csv = "*"
dotenvy = "*"
indicatif = "*"
reqwest = { version = "*", default-features = false, features = ["json", "rustls-tls"] }
serde = { version = "*", features = ["derive"] }
tokio = { version = "*", features = ["rt-multi-thread", "macros", "net", "time", "sync"] }
