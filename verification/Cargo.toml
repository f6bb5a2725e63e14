[package]
name = "pidmesh"
version = "1.0.0"
edition = "2021"
publish = false

[dependencies]
rusqlite = { version = "*", features = ["bundled"] }
uuid = { version = "1", features = ["v4", "v5"] }
nix = { version = "*", features = ["signal", "process"] }
anyhow = "1"
serde = { version = "1", features = ["derive"] }
serde_json = "1"
clap = { version = "4", features = ["derive", "env"] }
tokio = { version = "1", features = ["full"] }
rmcp = { version = "*", features = ["server", "transport-io", "macros"] }
schemars = "*"
axum = { version = "*", features = ["ws"] }
