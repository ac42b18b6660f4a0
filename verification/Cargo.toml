[package]
name = "open_tab"
version = "0.1.0"
edition = "2021"
publish = false

[dependencies]
rand = "=0.8.8"
uuid = { version = "=1.29.0", features = ["v4"] }
mcmf = "=2.0.0"
itertools = "=0.15.0"
serde = { version = "=1.0.229", features = ["derive"] }
serde_json = "=1.0.154"
serde_yaml = "=0.9.34"
thiserror = "=1.0.69"
anyhow = "=1.0.104"
dirs = "=7.0.0"
ordered-float = "=5.5.1"
sparse_linear_assignment = "=0.1.5"
base64 = "0.22"
