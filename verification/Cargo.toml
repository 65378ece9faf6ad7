[package]
name = "workspace_graph"
version = "0.1.0"
edition = "2021"
publish = false

[dependencies]
semver = "=1.0.28"
sha1 = "=0.10.7"
serde = { version = "=1.0.229", features = ["derive"] }
serde_json = "=1.0.154"
glob = "=0.3.4"
async-std = "=1.13.2"
futures = "=0.3.34"
napi = { version = "=1.8.0", features = ["napi4"] }
napi-derive = "=1.1.2"
rayon = "=1.12.0"
neon = { version = "=0.8.3", default-features = false, features = ["napi-6"] }
