[package]
name = "rust-pattern-components"
version = "0.1.0"
edition = "2021"
publish = false

[dependencies]
inventory = "0.3"
static_assertions = "1.1"
thiserror = "2"
