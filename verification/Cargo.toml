[package]
name = "ia2_project"
version = "0.1.0"
edition = "2021"
publish = false

[dependencies]
ironplc-dsl = "=0.1.1"
ironplc-parser = "=0.1.1"
serde = { version = "1", features = ["derive"] }
serde_json = "1"
toml = "*"
thiserror = "*"
dirs = "*"
