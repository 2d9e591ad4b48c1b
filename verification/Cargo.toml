[package]
name = "ps_tree"
version = "0.1.0"
edition = "2021"
publish = false

[dependencies]
ctrlc = "*"
serde = { version = "*", features = ["derive"] }
serde_json = "*"
sysinfo = "*"
