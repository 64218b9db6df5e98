[package]
name = "adi_tasks"
version = "0.1.0"
edition = "2021"
publish = false

[dependencies]
serde_json = "1"
once_cell = "1"
