[package]
name = "timberborn_autosplitter"
version = "0.1.0"
edition = "2021"
publish = false

[dependencies]
dlmalloc = { version = "=0.2.14", features = ["global"] }
libc = "=0.2.191"
serde_json = "=1.0.154"
