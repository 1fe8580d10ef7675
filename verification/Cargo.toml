[package]
name = "cargo-remove-unused-derives"
version = "0.1.0"
edition = "2021"
publish = false

[dependencies]
syn = { version = "2", features = ["full"] }
proc-macro2 = { version = "1", features = ["span-locations"] }
cargo_metadata = "*"
clap = { version = "4", features = ["derive"] }
ignore = "0.4"
tempfile = "3"
