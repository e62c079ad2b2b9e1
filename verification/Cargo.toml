[package]
name = "bptree"
version = "0.1.0"
edition = "2021"
publish = false

[dependencies]
uuid = { version = "1", features = ["v4"] }
thiserror = "1"
path_macro = "1"
