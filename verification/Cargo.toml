[package]
name = "hush"
version = "0.1.0"
edition = "2021"
publish = false

[dependencies]
audiopus = "=0.2.0"
