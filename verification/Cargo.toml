[package]
name = "lamzfs"
version = "0.1.0"
edition = "2021"
publish = false

[dependencies]
lz4_flex = { version = "0.11", default-features = false, features = ["safe-encode", "safe-decode"] }
miniz_oxide = { version = "0.8", default-features = false, features = ["with-alloc"] }
ruzstd = { version = "0.8", default-features = false }
