[package]
name = "thread_rollout"
version = "0.1.0"
edition = "2021"
publish = false

[dependencies]
tracing = "0.1"
