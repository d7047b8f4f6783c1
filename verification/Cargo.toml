[package]
name = "task_master"
version = "0.1.0"
edition = "2021"
publish = false

[dependencies]
yaml-rust = "=0.4.5"
nix = { version = "=0.31.3", features = ["signal", "process", "fs"] }
serde = { version = "=1.0.229", features = ["derive"] }
serde_json = "=1.0.154"
liner = "=0.4.1"
