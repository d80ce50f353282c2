[package]
name = "cursive_tree_view"
version = "0.1.0"
edition = "2021"
publish = false

[dependencies]
cursive = { version = "*", default-features = false }
