[package]
name = "zsh_patina"
version = "0.1.0"
edition = "2021"
publish = false

[dependencies]
anyhow = "1"
rustc-hash = "2"
syntect = { version = "5", default-features = false, features = ["parsing", "default-syntaxes", "regex-fancy"] }
