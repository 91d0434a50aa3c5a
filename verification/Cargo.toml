[package]
name = "snippet_events"
version = "0.1.0"
edition = "2021"
publish = false

[dependencies]
anstyle = "1"
