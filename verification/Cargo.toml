[package]
name = "ranim"
version = "0.1.0"
edition = "2021"
publish = false

[dependencies]
lru = "=0.19.0"
sha1 = "=0.11.0"
base16ct = { version = "=1.0.0", features = ["alloc"] }
regex = "=1.13.1"
diff-match-patch-rs = "=0.5.1"
clap = { version = "=4.6.7", features = ["derive"] }
serde = { version = "=1.0.229", features = ["derive"] }
toml = "=1.2.1"
anyhow = "=1.0.104"
which = "=8.0.6"
walkdir = "=2.5.0"
tracing = "0.1"
tracing-subscriber = { version = "0.3", features = ["env-filter"] }
