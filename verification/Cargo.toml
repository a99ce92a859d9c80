[package]
name = "error_line"
version = "0.1.0"
edition = "2021"
publish = false

[dependencies]
anyhow = "*"
format_serde_error = "*"
