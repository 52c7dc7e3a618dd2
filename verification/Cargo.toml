[package]
name = "timewarp"
version = "0.1.0"
edition = "2021"
publish = false

[dependencies]
anyhow = "1"
chrono = "0.4"
clap = { version = "4", features = ["derive"] }
libc = "0.2"
once_cell = "1"
which = "*"
