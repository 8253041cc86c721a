[package]
name = "initd"
version = "0.1.0"
edition = "2021"
publish = false

[dependencies]
anyhow = "*"
rustix = { version = "*", features = ["mount", "system", "process"] }
serde = { version = "*", features = ["derive"] }
signal-hook = "*"
toml = "*"
tracing = "*"
tracing-subscriber = { version = "*", features = ["env-filter"] }

[dev-dependencies]
drm-fourcc = "*"
