[package]
name = "loro_internal"
version = "0.1.0"
edition = "2021"
publish = false

[dependencies]
append-only-bytes = "=0.1.12"
arbitrary = { version = "=1.5.0", features = ["derive"] }
enum-as-inner = "=0.6.1"
im = "15.1"
serde = { version = "=1.0.229", features = ["derive"] }
string_cache = "=0.8.9"
zerovec = "=0.9.7"
