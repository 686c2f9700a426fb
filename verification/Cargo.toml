[package]
name = "lagent"
version = "0.1.0"
edition = "2021"
publish = false

[dependencies]
anyhow = "=1.0.104"
colored = "=3.1.1"
futures = "=0.3.34"
rig = { version = "=0.42.0", default-features = false, features = ["agent", "derive", "rmcp"] }
rmcp = { version = "=2.2.0", default-features = false, features = ["client", "transport-streamable-http-client-reqwest"] }
tokio = { version = "=1.54.1", features = ["full"] }
