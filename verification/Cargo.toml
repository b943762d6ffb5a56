[package]
name = "appoptr"
version = "2.3.0"
edition = "2021"
publish = false

[dependencies]
serde_json = "1"
libc = "0.2"
