[package]
name = "todo"
version = "0.1.0"
edition = "2021"
publish = false

[dependencies]
clap = "2"
colored = "*"
dirs = "*"
home = "*"

[dev-dependencies]
serde_json = "*"
