[package]
name = "btree_rewrite"
version = "0.1.0"
edition = "2021"
publish = false

[dependencies]

[dev-dependencies]
rand = "0.8"
