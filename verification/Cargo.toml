[package]
name = "codeowners_validation"
version = "0.1.0"
edition = "2021"
publish = false

[dependencies]
clap = { version = "4", features = ["derive", "env"] }
globset = "0.4"
ignore = "0.4"
num_cpus = "1"
rustc-hash = "2"
