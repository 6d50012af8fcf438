[package]
name = "cargo_generate_rpm"
version = "0.1.0"
edition = "2021"
publish = false

[dependencies]
elf = "0.7"
cargo_toml = "*"
clap = { version = "4", features = ["derive"] }
color-print = "*"
glob = "*"
rpm = "*"
thiserror = "*"
toml = "*"

[dev-dependencies]
tempfile = "*"
