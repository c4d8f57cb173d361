[package]
name = "norman"
version = "0.1.0"
edition = "2021"
publish = false

[dependencies]
cmd_lib = "0.7"
sentry = "0.18"

[dev-dependencies]
rand = "0.7"
