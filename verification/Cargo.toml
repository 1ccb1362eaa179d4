[package]
name = "nix_search"
version = "0.1.0"
edition = "2021"
publish = false

[dependencies]
probly-search = "=2.0.1"
serde = { version = "=1.0.229", features = ["derive"] }
serde_json = "=1.0.154"
anyhow = "=1.0.104"
async-trait = "=0.1.92"
krunner = { version = "=0.1.1", features = ["tokio"] }
tokio = { version = "=1.54.1", features = ["process", "macros", "rt-multi-thread"] }
