[package]
name = "buffrs_resolver"
version = "0.1.0"
edition = "2021"
publish = false

[dependencies]
miette = "7"
semver = "1"
thiserror = "2"
tracing = "0.1"
