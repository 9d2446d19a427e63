[package]
name = "todo_tasks"
version = "0.1.0"
edition = "2021"
publish = false

[dependencies]
clap = "2"

[dev-dependencies]
serde_json = "*"
serde_yaml = "*"
