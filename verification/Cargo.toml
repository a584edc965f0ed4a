[package]
name = "probe-rs"
version = "0.1.0"
edition = "2021"
publish = false

[dependencies]
scroll = { version = "0.10", default-features = false }
ihex = "1.1"
jep106 = "0.2"
thiserror = "1.0"
log = "0.4"
