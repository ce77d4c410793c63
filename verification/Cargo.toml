[package]
name = "sharded_tree"
version = "0.1.0"
edition = "2021"
publish = false

[dependencies]
data-encoding = "2"
thiserror = "2"
