[package]
name = "avl_interval_tree"
version = "0.1.0"
edition = "2021"
publish = false

[dependencies]
thiserror = "=1.0.69"

[dev-dependencies]
num = "=0.4.3"
rand = "=0.8.8"
