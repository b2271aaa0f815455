[package]
name = "repvar"
version = "0.1.0"
edition = "2021"
publish = false

[dependencies]
clap = { version = "=4.6.7", features = ["cargo"] }
cli_utils_hoijui = { version = "=0.13.1", features = ["logging"] }
const_format = "=0.2.37"
git-version = "=0.3.9"
thiserror = "=2.0.21"
tracing-subscriber = "=0.3.23"
