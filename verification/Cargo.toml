[package]
name = "l10nregistry"
version = "0.1.0"
edition = "2021"
publish = false

[dependencies]
chunky-vec = "*"
fluent-bundle = "*"
fluent-fallback = "*"
futures = "*"
itertools = "*"
unic-langid = "*"
