[package]
name = "jsonl_tools"
version = "0.1.0"
edition = "2021"
publish = false

[dependencies]
serde_json = "1"
num-format = "0.4"
tracing = "0.1"
tracing-subscriber = "0.3"
