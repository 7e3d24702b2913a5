[package]
name = "skills_md_graph"
version = "0.1.0"
edition = "2021"
publish = false

[dependencies]
anyhow = "1"
clap = { version = "4", features = ["derive"] }
indicatif = "*"
petgraph = "*"
serde = { version = "1", features = ["derive"] }
serde_json = "1"
serde_yaml = "*"
thiserror = "*"
tokio = { version = "1", features = ["full"] }
toml = "*"
walkdir = "2"
